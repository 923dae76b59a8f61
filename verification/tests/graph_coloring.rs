use graph_coloring2::Graph;

/// The color assigned to `v`, panicking when `v` has no entry.
fn lookup(map: &Vec<(i32, i32)>, v: i32) -> i32 {
    for &(vertex, color) in map {
        if vertex == v {
            return color;
        }
    }
    panic!("vertex has no color entry");
}

fn keys(map: &Vec<(i32, i32)>) -> Vec<i32> {
    map.iter().map(|&(vertex, _)| vertex).collect()
}

fn triangle() -> Graph {
    let mut g = Graph::new();
    g.add_edge(0, 1);
    g.add_edge(1, 2);
    g.add_edge(2, 0);
    g
}

fn star() -> Graph {
    let mut g = Graph::new();
    g.add_edge(0, 1);
    g.add_edge(0, 2);
    g.add_edge(0, 3);
    g
}

#[test]
fn symmetry_round_trip() {
    let mut g = Graph::new();
    g.add_edge(1, 2);
    g.add_edge(2, 3);
    let n1 = g.neighbors(1).expect("vertex 1 must be present");
    assert!(n1.contains(&2));
    let n2 = g.neighbors(2).expect("vertex 2 must be present");
    assert!(n2.contains(&1));
    assert!(n2.contains(&3));
}

#[test]
fn neighbors_of_absent_vertex() {
    let mut g = Graph::new();
    g.add_edge(1, 2);
    assert!(g.neighbors(7).is_none());
}

#[test]
fn vertices_in_insertion_order() {
    let mut g = Graph::new();
    g.add_edge(5, 3);
    g.add_edge(3, 9);
    g.add_edge(9, 5);
    assert_eq!(g.len(), 3);
    assert_eq!(g.vertex_at(0), 5);
    assert_eq!(g.vertex_at(1), 3);
    assert_eq!(g.vertex_at(2), 9);
}

#[test]
fn triangle_greedy() {
    let g = triangle();
    let (map, count) = g.greedy_coloring();
    assert_eq!(count, 3);
    assert_eq!(map, vec![(0, 0), (1, 1), (2, 2)]);
}

#[test]
fn triangle_rlf() {
    let g = triangle();
    let (map, count) = g.rlf_coloring();
    assert_eq!(count, 3);
    let mut seen = vec![lookup(&map, 0), lookup(&map, 1), lookup(&map, 2)];
    seen.sort();
    assert_eq!(seen, vec![0, 1, 2]);
}

#[test]
fn triangle_dsatur() {
    let g = triangle();
    let (map, count) = g.dsatur_coloring();
    assert_eq!(count, 3);
    let mut seen = vec![lookup(&map, 0), lookup(&map, 1), lookup(&map, 2)];
    seen.sort();
    assert_eq!(seen, vec![0, 1, 2]);
    assert_eq!(keys(&map), vec![0, 1, 2]);
}

#[test]
fn single_edge_two_colors() {
    let mut g = Graph::new();
    g.add_edge(0, 1);
    for (map, count) in [g.greedy_coloring(), g.rlf_coloring(), g.dsatur_coloring()] {
        assert_eq!(count, 2);
        assert_ne!(lookup(&map, 0), lookup(&map, 1));
    }
}

#[test]
fn star_two_colors() {
    let g = star();
    for (map, count) in [g.greedy_coloring(), g.rlf_coloring(), g.dsatur_coloring()] {
        assert_eq!(count, 2);
        let center = lookup(&map, 0);
        for leaf in [1, 2, 3] {
            assert_ne!(lookup(&map, leaf), center);
        }
        assert_eq!(lookup(&map, 1), lookup(&map, 2));
        assert_eq!(lookup(&map, 2), lookup(&map, 3));
    }
}

#[test]
fn empty_graph_zero_colors() {
    let g = Graph::new();
    for (map, count) in [g.greedy_coloring(), g.rlf_coloring(), g.dsatur_coloring()] {
        assert_eq!(count, 0);
        assert!(map.is_empty());
    }
}

#[test]
fn self_loop_single_color() {
    let mut g = Graph::new();
    g.add_edge(5, 5);
    let n5 = g.neighbors(5).expect("vertex 5 must be present");
    assert_eq!(n5.as_slice(), &[5, 5]);
    for (map, count) in [g.greedy_coloring(), g.rlf_coloring(), g.dsatur_coloring()] {
        assert_eq!(count, 1);
        assert_eq!(map, vec![(5, 0)]);
    }
}

#[test]
fn parallel_edges_two_colors() {
    let mut g = Graph::new();
    g.add_edge(0, 1);
    g.add_edge(0, 1);
    for (map, count) in [g.greedy_coloring(), g.rlf_coloring(), g.dsatur_coloring()] {
        assert_eq!(count, 2);
        assert_ne!(lookup(&map, 0), lookup(&map, 1));
    }
}

#[test]
fn repeated_calls_identical() {
    let mut g = Graph::new();
    g.add_edge(0, 1);
    g.add_edge(1, 2);
    g.add_edge(2, 0);
    g.add_edge(2, 3);
    g.add_edge(3, 4);
    assert_eq!(g.greedy_coloring(), g.greedy_coloring());
    assert_eq!(g.rlf_coloring(), g.rlf_coloring());
    assert_eq!(g.dsatur_coloring(), g.dsatur_coloring());
}

#[test]
fn path_alternates_two_colors() {
    let mut g = Graph::new();
    g.add_edge(0, 1);
    g.add_edge(1, 2);
    g.add_edge(2, 3);
    for (map, count) in [g.greedy_coloring(), g.rlf_coloring(), g.dsatur_coloring()] {
        assert_eq!(count, 2);
        assert_ne!(lookup(&map, 0), lookup(&map, 1));
        assert_ne!(lookup(&map, 1), lookup(&map, 2));
        assert_ne!(lookup(&map, 2), lookup(&map, 3));
    }
}

#[test]
fn coverage_lists_every_vertex_once() {
    let mut g = Graph::new();
    g.add_edge(4, 2);
    g.add_edge(2, 8);
    g.add_edge(8, 4);
    g.add_edge(8, 16);
    for (map, _) in [g.greedy_coloring(), g.rlf_coloring(), g.dsatur_coloring()] {
        assert_eq!(keys(&map), vec![4, 2, 8, 16]);
    }
}

#[test]
fn saturation_degree_counts_distinct_neighbor_colors() {
    let g = triangle();
    // No vertex colored yet: saturation is zero everywhere.
    let uncolored = vec![-1, -1, -1];
    assert_eq!(g.saturation_degree(0, &uncolored), 0);
    // Vertex 0 colored 0: both other vertices see one distinct color.
    let one_colored = vec![0, -1, -1];
    assert_eq!(g.saturation_degree(1, &one_colored), 1);
    assert_eq!(g.saturation_degree(2, &one_colored), 1);
    assert_eq!(g.saturation_degree(0, &one_colored), 0);
    // Vertices 0 and 1 colored differently: vertex 2 sees two colors.
    let two_colored = vec![0, 1, -1];
    assert_eq!(g.saturation_degree(2, &two_colored), 2);
    // Two neighbors sharing a color count once.
    let mut star_graph = star();
    star_graph.add_edge(0, 4);
    let shared = vec![-1, 1, 1, 1, 0];
    assert_eq!(star_graph.saturation_degree(0, &shared), 2);
    // A vertex absent from the graph has saturation zero.
    assert_eq!(g.saturation_degree(42, &uncolored), 0);
}

#[test]
fn greedy_exact_star_assignment() {
    let g = star();
    let (map, count) = g.greedy_coloring();
    assert_eq!(count, 2);
    assert_eq!(map, vec![(0, 0), (1, 1), (2, 1), (3, 1)]);
}

#[test]
fn rlf_cascades_from_max_degree() {
    // In the star the center has the largest degree, so RLF seeds there
    // and the leaves all pick the next color.
    let g = star();
    let (map, count) = g.rlf_coloring();
    assert_eq!(count, 2);
    assert_eq!(map, vec![(0, 0), (1, 1), (2, 1), (3, 1)]);
}

#[test]
fn dsatur_exact_path_assignment() {
    // All saturations start at zero, so DSatur picks vertex 0 first, then
    // follows the growing saturations down the path.
    let mut g = Graph::new();
    g.add_edge(0, 1);
    g.add_edge(1, 2);
    g.add_edge(2, 3);
    let (map, count) = g.dsatur_coloring();
    assert_eq!(count, 2);
    assert_eq!(map, vec![(0, 0), (1, 1), (2, 0), (3, 1)]);
}

#[test]
fn dsatur_tie_break_follows_insertion_order() {
    // A star whose first-inserted endpoint is a leaf: with every
    // saturation zero, DSatur starts at that leaf, not at the center.
    let mut g = Graph::new();
    g.add_edge(1, 0);
    g.add_edge(0, 2);
    g.add_edge(0, 3);
    let (map, count) = g.dsatur_coloring();
    assert_eq!(count, 2);
    assert_eq!(map, vec![(1, 0), (0, 1), (2, 0), (3, 0)]);
}

#[test]
fn dense_colors_have_no_gaps() {
    let mut g = Graph::new();
    // Two triangles sharing an edge, then a pendant vertex.
    g.add_edge(0, 1);
    g.add_edge(1, 2);
    g.add_edge(2, 0);
    g.add_edge(1, 3);
    g.add_edge(2, 3);
    g.add_edge(3, 4);
    for (map, count) in [g.greedy_coloring(), g.rlf_coloring(), g.dsatur_coloring()] {
        let max = map.iter().map(|&(_, c)| c).max().unwrap();
        assert_eq!(count, max + 1);
        for c in 0..count {
            assert!(map.iter().any(|&(_, got)| got == c));
        }
    }
}
