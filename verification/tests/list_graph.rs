use algorithms::graph::list_graph::GraphAdjList;

fn sample() -> GraphAdjList<i32> {
    GraphAdjList::new(vec![[1, 3], [1, 5], [3, 2], [2, 5], [5, 4], [2, 4]])
}

fn sorted(mut values: Vec<i32>) -> Vec<i32> {
    values.sort();
    values
}

#[test]
fn list_graph_init() {
    let mut graph = sample();

    graph.add_vertex(6);

    graph.add_edge(4, 6);

    println!("bfs: {:?}", graph.bfs());
    println!("dfs: {:?}", graph.dfs());

    assert_eq!(graph.size(), 6);
    assert_eq!(sorted(graph.bfs()), vec![1, 2, 3, 4, 5, 6]);
    assert_eq!(sorted(graph.dfs()), vec![1, 2, 3, 4, 5, 6]);
}

#[test]
fn list_graph_lists_follow_edges() {
    let graph = sample();
    assert_eq!(graph.size(), 5);
    assert_eq!(graph.adj_list[&1], vec![3, 5]);
    assert_eq!(graph.adj_list[&3], vec![1, 2]);
    assert_eq!(graph.adj_list[&2], vec![3, 5, 4]);
    assert_eq!(graph.adj_list[&5], vec![1, 2, 4]);
    assert_eq!(graph.adj_list[&4], vec![5, 2]);
}

#[test]
fn list_graph_edge_is_added_once() {
    let mut graph = sample();
    graph.add_edge(1, 3);
    graph.add_edge(3, 1);
    assert_eq!(graph.adj_list[&1], vec![3, 5]);
    assert_eq!(graph.adj_list[&3], vec![1, 2]);
    graph.add_vertex(1);
    assert_eq!(graph.adj_list[&1], vec![3, 5]);
    assert_eq!(graph.size(), 5);
}

#[test]
fn list_graph_remove_edge_and_vertex() {
    let mut graph = sample();
    graph.remove_edge(2, 5);
    assert_eq!(graph.adj_list[&2], vec![3, 4]);
    assert_eq!(graph.adj_list[&5], vec![1, 4]);
    graph.remove_vertex(4);
    assert_eq!(graph.size(), 4);
    assert!(!graph.adj_list.contains_key(&4));
    assert_eq!(graph.adj_list[&2], vec![3]);
    assert_eq!(graph.adj_list[&5], vec![1]);
    assert_eq!(graph.adj_list[&1], vec![3, 5]);
}

#[test]
fn list_graph_traversals_from_a_vertex() {
    let graph = sample();
    assert_eq!(graph.bfs_from(&1), vec![1, 3, 5, 2, 4]);
    assert_eq!(graph.dfs_from(&1), vec![1, 3, 2, 5, 4]);
    assert_eq!(graph.bfs_from(&4), vec![4, 5, 2, 1, 3]);
    assert_eq!(graph.dfs_from(&4), vec![4, 5, 1, 3, 2]);
}

#[test]
fn list_graph_traversals_visit_what_can_be_reached_once() {
    let mut graph = GraphAdjList::new(vec![["a", "b"], ["b", "c"], ["c", "a"], ["x", "y"]]);
    graph.add_vertex("alone");
    assert_eq!(graph.bfs_from(&"a"), vec!["a", "b", "c"]);
    assert_eq!(graph.dfs_from(&"a"), vec!["a", "b", "c"]);
    assert_eq!(graph.bfs_from(&"y"), vec!["y", "x"]);
    assert_eq!(graph.dfs_from(&"alone"), vec!["alone"]);
    let from_some_vertex = graph.bfs();
    assert!(from_some_vertex.len() == 1 || from_some_vertex.len() == 2 || from_some_vertex.len() == 3);
    assert_eq!(graph.dfs().len(), from_some_vertex.len());
}

#[test]
fn list_graph_empty() {
    let graph: GraphAdjList<i32> = GraphAdjList::new(vec![]);
    assert_eq!(graph.size(), 0);
    assert_eq!(graph.bfs(), Vec::<i32>::new());
    assert_eq!(graph.dfs(), Vec::<i32>::new());
}
