use aoc::graph::Graph;

fn successors_of(graph: &Graph, source: usize) -> Vec<usize> {
    let mut it = graph.successors(source);
    let mut out = Vec::new();
    while let Some(target) = it.next() {
        out.push(target);
    }
    out
}

fn chain_of_three() -> Graph {
    let mut graph = Graph::new();
    assert_eq!(graph.add_node(), 0);
    assert_eq!(graph.add_node(), 1);
    assert_eq!(graph.add_node(), 2);
    graph.add_edge(0, 1);
    graph.add_edge(1, 2);
    graph
}

#[test]
fn nodes_are_numbered_in_creation_order() {
    let mut graph = Graph::new();
    for expected in 0..10 {
        assert_eq!(graph.add_node(), expected);
    }
}

#[test]
fn new_node_has_no_successors() {
    let mut graph = Graph::new();
    let node = graph.add_node();
    assert_eq!(successors_of(&graph, node), Vec::<usize>::new());
}

#[test]
fn successors_come_newest_first() {
    let mut graph = Graph::new();
    for _ in 0..4 {
        graph.add_node();
    }
    graph.add_edge(0, 1);
    graph.add_edge(0, 2);
    graph.add_edge(0, 3);
    assert_eq!(successors_of(&graph, 0), vec![3, 2, 1]);
}

#[test]
fn successors_keep_parallel_edges() {
    let mut graph = Graph::new();
    graph.add_node();
    graph.add_node();
    graph.add_edge(0, 1);
    graph.add_edge(0, 1);
    assert_eq!(successors_of(&graph, 0), vec![1, 1]);
}

#[test]
fn successors_are_the_targets_added_whatever_the_order_of_calls() {
    let mut graph = Graph::new();
    for _ in 0..4 {
        graph.add_node();
    }
    graph.add_edge(0, 1);
    graph.add_edge(2, 3);
    graph.add_edge(0, 3);
    graph.add_edge(1, 0);
    graph.add_edge(2, 0);
    graph.add_edge(0, 2);
    let mut from_zero = successors_of(&graph, 0);
    from_zero.sort();
    assert_eq!(from_zero, vec![1, 2, 3]);
    let mut from_two = successors_of(&graph, 2);
    from_two.sort();
    assert_eq!(from_two, vec![0, 3]);
    assert_eq!(successors_of(&graph, 1), vec![0]);
    assert_eq!(successors_of(&graph, 3), Vec::<usize>::new());
}

#[test]
fn successors_can_be_walked_again() {
    let graph = chain_of_three();
    assert_eq!(successors_of(&graph, 0), vec![1]);
    assert_eq!(successors_of(&graph, 0), vec![1]);
}

#[test]
fn cursor_stays_at_the_end() {
    let graph = chain_of_three();
    let mut it = graph.successors(1);
    assert_eq!(it.next(), Some(2));
    assert_eq!(it.next(), None);
    assert_eq!(it.next(), None);
}

#[test]
fn edge_may_lead_to_a_node_added_later() {
    let mut graph = Graph::new();
    graph.add_node();
    graph.add_edge(0, 1);
    graph.add_node();
    assert_eq!(successors_of(&graph, 0), vec![1]);
    assert_eq!(graph.bfs(0, 1), Some(1));
}

#[test]
fn bfs_from_a_node_to_itself_is_zero() {
    let mut graph = chain_of_three();
    assert_eq!(graph.bfs(0, 0), Some(0));
    assert_eq!(graph.bfs(1, 1), Some(0));
    assert_eq!(graph.bfs(2, 2), Some(0));
}

#[test]
fn bfs_follows_edges_in_their_direction_only() {
    let mut graph = chain_of_three();
    assert_eq!(graph.bfs(0, 2), Some(2));
    assert_eq!(graph.bfs(2, 0), None);
}

#[test]
fn bfs_terminates_on_a_cycle() {
    let mut graph = Graph::new();
    graph.add_node();
    graph.add_node();
    graph.add_edge(0, 1);
    graph.add_edge(1, 0);
    assert_eq!(graph.bfs(0, 1), Some(1));
    assert_eq!(graph.bfs(1, 0), Some(1));
}

#[test]
fn bfs_without_a_path_is_none() {
    let mut graph = Graph::new();
    graph.add_node();
    graph.add_node();
    graph.add_node();
    graph.add_edge(0, 1);
    graph.add_edge(2, 1);
    assert_eq!(graph.bfs(0, 2), None);
    assert_eq!(graph.bfs(1, 0), None);
}

#[test]
fn bfs_to_a_node_that_does_not_exist_is_none() {
    let mut graph = chain_of_three();
    assert_eq!(graph.bfs(0, 7), None);
}

#[test]
fn bfs_takes_the_shortest_of_several_paths() {
    let mut graph = Graph::new();
    for _ in 0..6 {
        graph.add_node();
    }
    graph.add_edge(0, 1);
    graph.add_edge(1, 2);
    graph.add_edge(2, 3);
    graph.add_edge(3, 5);
    graph.add_edge(0, 4);
    graph.add_edge(4, 5);
    graph.add_edge(4, 4);
    assert_eq!(graph.bfs(0, 5), Some(2));
    assert_eq!(graph.bfs(1, 5), Some(3));
}

#[test]
fn bfs_twice_gives_the_same() {
    let mut graph = chain_of_three();
    let first = graph.bfs(0, 2);
    let second = graph.bfs(0, 2);
    assert_eq!(first, second);
    assert_eq!(successors_of(&graph, 0), vec![1]);
    assert_eq!(successors_of(&graph, 1), vec![2]);
}

#[test]
fn bfs_leaves_no_distance_behind() {
    let mut graph = chain_of_three();
    assert_eq!(graph.bfs(0, 2), Some(2));
    assert_eq!(graph.shortest_path(1, 2), Some(1));
}

#[test]
fn shortest_path_on_a_fresh_graph_is_the_distance() {
    let mut graph = chain_of_three();
    assert_eq!(graph.shortest_path(0, 2), Some(2));
    let mut graph = chain_of_three();
    assert_eq!(graph.shortest_path(0, 0), Some(0));
    let mut graph = chain_of_three();
    assert_eq!(graph.shortest_path(0, 1), Some(1));
}

#[test]
fn shortest_path_without_a_path_is_none() {
    let mut graph = chain_of_three();
    assert_eq!(graph.shortest_path(2, 0), None);
}

#[test]
fn shortest_path_terminates_on_a_cycle() {
    let mut graph = Graph::new();
    graph.add_node();
    graph.add_node();
    graph.add_edge(0, 1);
    graph.add_edge(1, 0);
    assert_eq!(graph.shortest_path(0, 1), Some(1));
}

#[test]
fn shortest_path_keeps_smaller_distances_of_an_earlier_call() {
    let mut graph = Graph::new();
    for _ in 0..4 {
        graph.add_node();
    }
    graph.add_edge(0, 1);
    graph.add_edge(1, 2);
    graph.add_edge(2, 3);
    // From node 1: node 1 gets 0, node 2 gets 1, node 3 gets 2.
    assert_eq!(graph.shortest_path(1, 3), Some(2));
    // From node 0: node 0 gets 0; node 1 holds 0 already, which a visit at
    // distance 1 does not lower, so the traversal stops there.
    assert_eq!(graph.shortest_path(0, 3), Some(2));
    assert_eq!(graph.shortest_path(0, 1), Some(0));
    // A search that records nothing still sees three edges.
    assert_eq!(graph.bfs(0, 3), Some(3));
}

#[test]
fn shortest_path_lowers_greater_distances_of_an_earlier_call() {
    let mut graph = Graph::new();
    for _ in 0..4 {
        graph.add_node();
    }
    graph.add_edge(0, 1);
    graph.add_edge(1, 2);
    graph.add_edge(2, 3);
    assert_eq!(graph.shortest_path(0, 3), Some(3));
    assert_eq!(graph.shortest_path(2, 3), Some(1));
    assert_eq!(graph.shortest_path(0, 2), Some(0));
}

fn terrain_graph(rows: &[&str]) -> (Graph, usize, usize, Vec<usize>) {
    let cells: Vec<Vec<char>> = rows.iter().map(|row| row.chars().collect()).collect();
    let width = cells[0].len();
    let height = |letter: char| match letter {
        'S' => 'a' as i32,
        'E' => 'z' as i32,
        other => other as i32,
    };
    let mut graph = Graph::new();
    let mut start = 0;
    let mut end = 0;
    let mut lows = Vec::new();
    for row in &cells {
        for letter in row {
            let node = graph.add_node();
            if *letter == 'S' {
                start = node;
            }
            if *letter == 'E' {
                end = node;
            }
            if *letter == 'S' || *letter == 'a' {
                lows.push(node);
            }
        }
    }
    for r in 0..cells.len() {
        for c in 0..width {
            let mut beside = Vec::new();
            if r > 0 {
                beside.push((r - 1, c));
            }
            if r + 1 < cells.len() {
                beside.push((r + 1, c));
            }
            if c > 0 {
                beside.push((r, c - 1));
            }
            if c + 1 < width {
                beside.push((r, c + 1));
            }
            for (r2, c2) in beside {
                if height(cells[r2][c2]) - height(cells[r][c]) <= 1 {
                    graph.add_edge(r * width + c, r2 * width + c2);
                }
            }
        }
    }
    (graph, start, end, lows)
}

#[test]
fn bfs_on_a_terrain_of_five_rows() {
    let rows = ["Sabqponm", "abcryxxl", "accszExk", "acctuvwj", "abdefghi"];
    let (mut graph, start, end, lows) = terrain_graph(&rows);
    assert_eq!(graph.bfs(start, end), Some(31));
    let best = lows.iter().filter_map(|low| graph.bfs(*low, end)).min();
    assert_eq!(best, Some(29));
}

#[test]
fn bfs_on_a_grid_of_five_by_five() {
    let rows = ["Sbcde", "abcde", "abcde", "abcde", "vwxyE"];
    let (mut graph, start, end, _) = terrain_graph(&rows);
    // Every step to the right climbs one level, every step down along the
    // last column is level or climbs: eight steps lead to the far corner.
    assert_eq!(graph.bfs(start, end), None);
    let rows = ["Sabcd", "bcdef", "defgh", "ijklm", "vwxyE"];
    let (mut graph, start, end, _) = terrain_graph(&rows);
    assert_eq!(graph.bfs(start, end), None);
    let rows = ["Sabcd", "zyxwe", "abcdf", "ihggg", "jklmE"];
    let (mut graph, start, end, _) = terrain_graph(&rows);
    assert_eq!(graph.bfs(end, start), Some(8));
    assert_eq!(graph.bfs(start, 4), Some(4));
}
