use maze_util_lib::faces::FaceFinder;
use maze_util_lib::find_longest_path;
use maze_util_lib::graph::Graph;
use maze_util_lib::search::PathFinder;
use maze_util_lib::PathError;

fn edge(a: &str, b: &str) -> (String, String) {
    (a.to_string(), b.to_string())
}

fn labels(v: &[&str]) -> Vec<String> {
    v.iter().map(|s| s.to_string()).collect()
}

/// Checks that `path` is made of input labels, without repeats, and that
/// every consecutive pair is an input edge in one orientation.
fn check_simple_path_of(edges: &[(String, String)], path: &[String]) {
    for (i, l) in path.iter().enumerate() {
        assert!(
            edges.iter().any(|(a, b)| a == l || b == l),
            "label not from input: {l}"
        );
        for other in &path[i + 1..] {
            assert_ne!(l, other, "duplicate label in path");
        }
    }
    for w in path.windows(2) {
        assert!(
            edges
                .iter()
                .any(|(a, b)| (a == &w[0] && b == &w[1]) || (a == &w[1] && b == &w[0])),
            "consecutive pair not an input edge: {} - {}",
            w[0],
            w[1]
        );
    }
}

#[test]
fn four_cycle_visits_all_nodes() {
    let edges = vec![edge("A", "B"), edge("B", "C"), edge("C", "D"), edge("D", "A")];
    let path = find_longest_path(edges.clone()).unwrap();
    assert_eq!(path.len(), 4);
    check_simple_path_of(&edges, &path);
    assert_eq!(path, labels(&["A", "B", "C", "D"]));
}

#[test]
fn star_longest_path_spans_two_leaves() {
    let edges = vec![edge("X", "P"), edge("X", "Q"), edge("X", "R")];
    let path = find_longest_path(edges.clone()).unwrap();
    assert_eq!(path.len(), 3);
    check_simple_path_of(&edges, &path);
    assert_eq!(path, labels(&["P", "X", "Q"]));
}

#[test]
fn single_edge_gives_both_endpoints() {
    let edges = vec![edge("A", "B")];
    let path = find_longest_path(edges.clone()).unwrap();
    assert_eq!(path, labels(&["A", "B"]));
}

#[test]
fn empty_edge_list_is_rejected() {
    let r = find_longest_path(Vec::new());
    assert_eq!(r, Err(PathError::EmptyInput));
}

#[test]
fn self_loop_yields_single_node_path() {
    let path = find_longest_path(vec![edge("A", "A")]).unwrap();
    assert_eq!(path, labels(&["A"]));
}

#[test]
fn parallel_edges_are_tolerated() {
    let edges = vec![edge("A", "B"), edge("A", "B")];
    let path = find_longest_path(edges.clone()).unwrap();
    assert_eq!(path.len(), 2);
    check_simple_path_of(&edges, &path);
}

#[test]
fn disconnected_components_keep_the_longest() {
    let edges = vec![edge("A", "B"), edge("C", "D"), edge("D", "E")];
    let path = find_longest_path(edges.clone()).unwrap();
    assert_eq!(path.len(), 3);
    check_simple_path_of(&edges, &path);
}

#[test]
fn chain_is_followed_end_to_end() {
    let edges = vec![edge("A", "B"), edge("B", "C"), edge("C", "D")];
    let path = find_longest_path(edges.clone()).unwrap();
    assert_eq!(path, labels(&["A", "B", "C", "D"]));
}

#[test]
fn nonempty_input_never_gives_empty_path() {
    let inputs = vec![
        vec![edge("A", "A")],
        vec![edge("A", "B")],
        vec![edge("p", "q"), edge("q", "p")],
        vec![edge("", "β")],
    ];
    for edges in inputs {
        let path = find_longest_path(edges).unwrap();
        assert!(path.len() >= 1);
    }
}

#[test]
fn search_is_deterministic_across_runs() {
    let edges = vec![
        edge("A", "B"),
        edge("B", "C"),
        edge("C", "A"),
        edge("C", "D"),
        edge("D", "E"),
    ];
    let first = find_longest_path(edges.clone()).unwrap();
    let second = find_longest_path(edges).unwrap();
    assert_eq!(first, second);
}

#[test]
fn graph_keeps_insertion_order_of_neighbors() {
    let mut g = Graph::new();
    g.add_edge(0, 1);
    g.add_edge(0, 2);
    g.add_edge(2, 1);
    assert_eq!(g.get_neighbors(0), vec![1, 2]);
    assert_eq!(g.get_neighbors(1), vec![0, 2]);
    assert_eq!(g.get_neighbors(2), vec![0, 1]);
    assert_eq!(g.node_count(), 3);
    assert_eq!(g.get_neighbors(9), Vec::<usize>::new());
}

#[test]
fn add_node_is_idempotent() {
    let mut g = Graph::new();
    g.add_node(1);
    g.add_node(1);
    assert_eq!(g.node_count(), 2);
    assert_eq!(g.get_neighbors(1), Vec::<usize>::new());
    g.add_edge(1, 0);
    assert_eq!(g.get_neighbors(1), vec![0]);
}

#[test]
fn four_cycle_decomposes_into_two_faces() {
    let mut g = Graph::new();
    g.add_edge(0, 1);
    g.add_edge(1, 2);
    g.add_edge(2, 3);
    g.add_edge(3, 0);
    let mut ff = FaceFinder::new();
    ff.build_faces(&g);
    assert_eq!(ff.faces, vec![vec![0, 1, 2, 3], vec![0, 3, 2, 1]]);
}

#[test]
fn every_half_edge_lies_in_exactly_one_cycle_face() {
    let mut g = Graph::new();
    g.add_edge(0, 1);
    g.add_edge(1, 2);
    g.add_edge(2, 3);
    g.add_edge(3, 0);
    let mut ff = FaceFinder::new();
    ff.build_faces(&g);
    // Count each half-edge's occurrences over all faces, wrap included.
    let mut count = std::collections::HashMap::new();
    for f in &ff.faces {
        for i in 0..f.len() {
            let he = (f[i], f[(i + 1) % f.len()]);
            *count.entry(he).or_insert(0) += 1;
        }
    }
    for u in 0..4usize {
        for &v in &g.get_neighbors(u) {
            assert_eq!(count.get(&(u, v)), Some(&1), "half-edge ({u}, {v})");
            assert!(ff.visited_half_edges.contains(&(u, v)));
        }
    }
    assert_eq!(count.values().sum::<i32>(), 8);
}

#[test]
fn failed_traces_still_consume_their_half_edges() {
    // A path graph has no closed face; every half-edge is still visited.
    let mut g = Graph::new();
    g.add_edge(0, 1);
    g.add_edge(1, 2);
    let mut ff = FaceFinder::new();
    ff.build_faces(&g);
    assert!(ff.faces.is_empty());
    for u in 0..3usize {
        for &v in &g.get_neighbors(u) {
            assert!(ff.visited_half_edges.contains(&(u, v)));
        }
    }
}

#[test]
fn pruning_never_beats_the_unbounded_search() {
    // The same search with no faces uses only the global leftover cap,
    // which is the bound treated as infinite; optimal lengths must agree.
    let graphs: Vec<Vec<(usize, usize)>> = vec![
        vec![(0, 1), (1, 2), (2, 3), (3, 0)],
        vec![(0, 1), (0, 2), (0, 3)],
        vec![(0, 1), (1, 2), (2, 0), (2, 3), (3, 4)],
        vec![(0, 1), (1, 2), (2, 0), (0, 3), (3, 4), (4, 5)],
    ];
    for spec in graphs {
        let mut g = Graph::new();
        for &(u, v) in &spec {
            g.add_edge(u, v);
        }
        let mut ff = FaceFinder::new();
        ff.build_faces(&g);
        let mut bounded = PathFinder::new();
        let with_faces = bounded.find_longest_path(&g, &ff.faces);
        let mut unbounded = PathFinder::new();
        let without_faces = unbounded.find_longest_path(&g, &Vec::new());
        assert_eq!(with_faces.len(), without_faces.len(), "graph {spec:?}");
    }
}

#[test]
fn best_record_is_coherent_and_never_shrinks() {
    let mut g = Graph::new();
    g.add_edge(0, 1);
    g.add_edge(1, 2);
    g.add_edge(2, 0);
    let mut ff = FaceFinder::new();
    ff.build_faces(&g);
    let mut pf = PathFinder::new();
    let first = pf.find_longest_path(&g, &ff.faces);
    assert_eq!(pf.global_best_length, pf.global_best_path.len());
    assert_eq!(first, pf.global_best_path);
    let before = pf.global_best_length;
    // A second search over the same graph starts from the old record and
    // cannot lower it.
    let second = pf.find_longest_path(&g, &ff.faces);
    assert!(pf.global_best_length >= before);
    assert_eq!(second.len(), first.len());
}

#[test]
fn face_heuristic_matches_hand_computed_bounds() {
    // 4-cycle: node 0 lies on both faces; from the start path [0] the
    // two faces hold 3 unvisited nodes each, capped by 3 leftover nodes.
    let mut g = Graph::new();
    g.add_edge(0, 1);
    g.add_edge(1, 2);
    g.add_edge(2, 3);
    g.add_edge(3, 0);
    let mut ff = FaceFinder::new();
    ff.build_faces(&g);
    let pf = PathFinder::new();
    let path = vec![0usize];
    let visited = vec![true, false, false, false];
    assert_eq!(pf.enhanced_face_heuristic(&g, &path, &visited, &ff.faces), 3);
    // With no faces at all the bound falls back to the global cap.
    assert_eq!(pf.enhanced_face_heuristic(&g, &path, &visited, &Vec::new()), 3);
    // Deeper in, the per-face sum is the smaller side.
    let path2 = vec![0usize, 1, 2];
    let visited2 = vec![true, true, true, false];
    assert_eq!(pf.enhanced_face_heuristic(&g, &path2, &visited2, &ff.faces), 1);
}

#[test]
fn labels_are_translated_in_first_appearance_order() {
    let edges = vec![edge("start", "mid"), edge("mid", "end")];
    let path = find_longest_path(edges).unwrap();
    assert_eq!(path, labels(&["start", "mid", "end"]));
}

#[test]
fn unusual_labels_round_trip() {
    let edges = vec![edge("", "β"), edge("β", "né ud")];
    let path = find_longest_path(edges.clone()).unwrap();
    assert_eq!(path.len(), 3);
    check_simple_path_of(&edges, &path);
}
