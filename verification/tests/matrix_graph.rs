use algorithms::graph::matrix_graph::GraphAdjMatrix;

fn sample() -> GraphAdjMatrix<i32> {
    GraphAdjMatrix::new(
        vec![1, 3, 2, 5, 4],
        vec![[0, 1], [0, 3], [1, 2], [2, 3], [4, 3], [2, 4]],
    )
}

#[test]
fn matrix_graph_init() {
    let mut graph = sample();

    graph.add_vertex(6);

    graph.add_edge(4, 5);

    println!("bfs: {:?}", graph.bfs());
    println!("dfs: {:?}", graph.dfs());

    assert_eq!(graph.size(), 6);
    assert_eq!(graph.bfs(), vec![1, 3, 5, 2, 4, 6]);
    assert_eq!(graph.dfs(), vec![1, 3, 2, 5, 4, 6]);
}

#[test]
fn matrix_graph_matrix_follows_edges() {
    let graph = sample();
    assert_eq!(graph.vertices, vec![1, 3, 2, 5, 4]);
    assert_eq!(
        graph.adj_mat,
        vec![
            vec![0, 1, 0, 1, 0],
            vec![1, 0, 1, 0, 0],
            vec![0, 1, 0, 1, 1],
            vec![1, 0, 1, 0, 1],
            vec![0, 0, 1, 1, 0],
        ]
    );
}

#[test]
fn matrix_graph_remove_vertex_moves_places() {
    let mut graph = sample();
    graph.remove_vertex(1);
    assert_eq!(graph.vertices, vec![1, 2, 5, 4]);
    assert_eq!(
        graph.adj_mat,
        vec![vec![0, 0, 1, 0], vec![0, 0, 1, 1], vec![1, 1, 0, 1], vec![0, 1, 1, 0]]
    );
    assert_eq!(graph.size(), 4);
    assert_eq!(graph.bfs(), vec![1, 5, 2, 4]);
    assert_eq!(graph.dfs(), vec![1, 5, 2, 4]);
}

#[test]
fn matrix_graph_remove_edge() {
    let mut graph = sample();
    graph.remove_edge(0, 1);
    graph.remove_edge(3, 0);
    assert_eq!(graph.adj_mat[0], vec![0, 0, 0, 0, 0]);
    assert_eq!(graph.adj_mat[1][0], 0);
    assert_eq!(graph.adj_mat[3][0], 0);
    // what cannot be reached from the first vertex is not visited
    assert_eq!(graph.bfs(), vec![1]);
    assert_eq!(graph.dfs(), vec![1]);
}

#[test]
fn matrix_graph_traversals_visit_what_can_be_reached_once() {
    let graph = GraphAdjMatrix::new(
        vec!["a", "b", "c", "d", "e", "f"],
        vec![[0, 2], [2, 4], [4, 0], [1, 3], [5, 4]],
    );
    assert_eq!(graph.bfs(), vec!["a", "c", "e", "f"]);
    assert_eq!(graph.dfs(), vec!["a", "c", "e", "f"]);
}

#[test]
fn matrix_graph_empty() {
    let mut graph: GraphAdjMatrix<i32> = GraphAdjMatrix::new(vec![], vec![]);
    assert_eq!(graph.size(), 0);
    assert_eq!(graph.bfs(), Vec::<i32>::new());
    assert_eq!(graph.dfs(), Vec::<i32>::new());
    graph.add_vertex(7);
    assert_eq!(graph.adj_mat, vec![vec![0]]);
    assert_eq!(graph.bfs(), vec![7]);
    assert_eq!(graph.dfs(), vec![7]);
}
