use undirected_graph::{Arena, Graph, Node, NodeRef};

#[allow(dead_code)]
#[derive(Debug, PartialEq)]
struct Data {
    a: i32,
    b: i32,
}

fn names(arena: &Arena<Data>, refs: &[NodeRef]) -> Vec<i32> {
    refs.iter().map(|r| arena.get(*r).unwrap().vertex_name()).collect()
}

fn four_nodes(arena: &mut Arena<Data>) -> (NodeRef, NodeRef, NodeRef, NodeRef) {
    let node0 = Node::new(arena, 0, Data { a: 1, b: 2 });
    let node1 = Node::new(arena, 1, Data { a: 3, b: 4 });
    let node2 = Node::new(arena, 2, Data { a: 5, b: 6 });
    let node3 = Node::new(arena, 3, Data { a: 7, b: 8 });
    Graph::add_edge(arena, node0, node2);
    Graph::add_edge(arena, node0, node3);
    Graph::add_edge(arena, node1, node2);
    Graph::add_edge(arena, node2, node3);
    (node0, node1, node2, node3)
}

#[test]
fn bfs_test() {
    let mut arena = Arena::new();
    let node0 = Node::new(&mut arena, 0, Data { a: 1, b: 2 });
    let node1 = Node::new(&mut arena, 1, Data { a: 3, b: 4 });
    let node2 = Node::new(&mut arena, 2, Data { a: 5, b: 6 });
    let node3 = Node::new(&mut arena, 3, Data { a: 7, b: 8 });

    let mut graph = Graph::new();
    graph.add_node(arena.share(node0));
    graph.add_node(arena.share(node1));
    graph.add_node(arena.share(node2));
    graph.add_node(arena.share(node3));

    Graph::add_edge(&mut arena, node0, node2);
    Graph::add_edge(&mut arena, node0, node3);
    Graph::add_edge(&mut arena, node1, node2);
    Graph::add_edge(&mut arena, node2, node3);

    let nodes = graph.nodes();
    let visited = graph.bfs(&arena, node0);

    nodes.iter().for_each(move |node| {
        assert_eq!(visited.contains(node), true);
    });
}

#[test]
fn bfs_order_is_breadth_first() {
    let mut arena = Arena::new();
    let (node0, node1, node2, node3) = four_nodes(&mut arena);
    let graph = Graph::new();
    let visited = graph.bfs(&arena, node0);
    assert_eq!(visited, vec![node0, node2, node3, node1]);
    assert_eq!(names(&arena, &visited), vec![0, 2, 3, 1]);
}

#[test]
fn bfs_from_other_start() {
    let mut arena = Arena::new();
    let (node0, node1, node2, node3) = four_nodes(&mut arena);
    let visited = Graph::new().bfs(&arena, node1);
    assert_eq!(visited, vec![node1, node2, node0, node3]);
}

#[test]
fn bfs_start_first_and_once() {
    let mut arena = Arena::new();
    let a = Node::new(&mut arena, 10, Data { a: 0, b: 0 });
    let b = Node::new(&mut arena, 11, Data { a: 0, b: 0 });
    Graph::add_edge(&mut arena, a, a);
    Graph::add_edge(&mut arena, a, b);
    Graph::add_edge(&mut arena, b, a);
    let visited = Graph::new().bfs(&arena, a);
    assert_eq!(visited[0], a);
    assert_eq!(visited.iter().filter(|r| **r == a).count(), 1);
    assert_eq!(visited, vec![a, b]);
}

#[test]
fn bfs_lone_node_is_singleton() {
    let mut arena = Arena::new();
    let a = Node::new(&mut arena, 5, Data { a: 0, b: 0 });
    let visited = Graph::new().bfs(&arena, a);
    assert_eq!(visited, vec![a]);
}

#[test]
fn add_edge_is_symmetric() {
    let mut arena = Arena::new();
    let a = Node::new(&mut arena, 1, Data { a: 0, b: 0 });
    let b = Node::new(&mut arena, 2, Data { a: 0, b: 0 });
    Graph::add_edge(&mut arena, a, b);
    assert_eq!(arena.get(a).unwrap().neighbors(), &vec![b]);
    assert_eq!(arena.get(b).unwrap().neighbors(), &vec![a]);
}

#[test]
fn add_edge_twice_gives_parallel_edges() {
    let mut arena = Arena::new();
    let a = Node::new(&mut arena, 1, Data { a: 0, b: 0 });
    let b = Node::new(&mut arena, 2, Data { a: 0, b: 0 });
    Graph::add_edge(&mut arena, a, b);
    Graph::add_edge(&mut arena, a, b);
    assert_eq!(arena.get(a).unwrap().neighbors(), &vec![b, b]);
    assert_eq!(arena.get(b).unwrap().neighbors(), &vec![a, a]);
    let visited = Graph::new().bfs(&arena, a);
    assert_eq!(visited, vec![a, b]);
}

#[test]
fn add_edge_self_loop() {
    let mut arena = Arena::new();
    let a = Node::new(&mut arena, 1, Data { a: 0, b: 0 });
    Graph::add_edge(&mut arena, a, a);
    assert_eq!(arena.get(a).unwrap().neighbors(), &vec![a, a]);
}

#[test]
fn bfs_stays_in_component() {
    let mut arena = Arena::new();
    let a = Node::new(&mut arena, 1, Data { a: 0, b: 0 });
    let b = Node::new(&mut arena, 2, Data { a: 0, b: 0 });
    let c = Node::new(&mut arena, 3, Data { a: 0, b: 0 });
    let d = Node::new(&mut arena, 4, Data { a: 0, b: 0 });
    Graph::add_edge(&mut arena, a, b);
    Graph::add_edge(&mut arena, c, d);
    let mut graph = Graph::new();
    graph.add_node(a);
    graph.add_node(b);
    graph.add_node(c);
    graph.add_node(d);
    let visited = graph.bfs(&arena, a);
    assert_eq!(visited, vec![a, b]);
    assert!(!visited.contains(&c));
    assert!(!visited.contains(&d));
}

#[test]
fn bfs_duplicate_names_under_visit() {
    let mut arena = Arena::new();
    let a = Node::new(&mut arena, 1, Data { a: 0, b: 0 });
    let b = Node::new(&mut arena, 2, Data { a: 0, b: 0 });
    let twin = Node::new(&mut arena, 2, Data { a: 9, b: 9 });
    let beyond = Node::new(&mut arena, 3, Data { a: 0, b: 0 });
    Graph::add_edge(&mut arena, a, b);
    Graph::add_edge(&mut arena, a, twin);
    Graph::add_edge(&mut arena, twin, beyond);
    let visited = Graph::new().bfs(&arena, a);
    assert_eq!(visited, vec![a, b]);
}

#[test]
fn bfs_skips_destroyed_neighbour() {
    let mut arena = Arena::new();
    let a = Node::new(&mut arena, 1, Data { a: 0, b: 0 });
    let gone = Node::new(&mut arena, 2, Data { a: 0, b: 0 });
    let c = Node::new(&mut arena, 3, Data { a: 0, b: 0 });
    Graph::add_edge(&mut arena, a, gone);
    Graph::add_edge(&mut arena, a, c);
    arena.release(gone);
    assert!(arena.get(gone).is_none());
    assert_eq!(arena.get(a).unwrap().neighbors(), &vec![gone, c]);
    let visited = Graph::new().bfs(&arena, a);
    assert_eq!(visited, vec![a, c]);
}

#[test]
fn shared_node_outlives_one_release() {
    let mut arena = Arena::new();
    let a = Node::new(&mut arena, 1, Data { a: 0, b: 0 });
    let mut graph = Graph::new();
    graph.add_node(arena.share(a));
    arena.release(a);
    assert_eq!(arena.get(a).unwrap().vertex_name(), 1);
    arena.release(a);
    assert!(arena.get(a).is_none());
}

#[test]
fn getters_are_stable() {
    let mut arena = Arena::new();
    let (node0, node1, _node2, _node3) = four_nodes(&mut arena);
    let mut graph = Graph::new();
    graph.add_node(node1);
    graph.add_node(node0);
    graph.add_node(node1);
    let first = graph.nodes().clone();
    let second = graph.nodes().clone();
    assert_eq!(first, second);
    assert_eq!(first, vec![node1, node0, node1]);
    let n1 = arena.get(node0).unwrap().neighbors().clone();
    let n2 = arena.get(node0).unwrap().neighbors().clone();
    assert_eq!(n1, n2);
}

#[test]
fn new_node_fields_and_rename() {
    let mut arena = Arena::new();
    let a = Node::new(&mut arena, 7, Data { a: 3, b: 4 });
    let node = arena.get(a).unwrap();
    assert_eq!(node.vertex_name(), 7);
    assert_eq!(node.value(), &Data { a: 3, b: 4 });
    assert!(node.neighbors().is_empty());
    arena.rename(a, 8);
    assert_eq!(arena.get(a).unwrap().vertex_name(), 8);
    assert_eq!(arena.get(a).unwrap().value(), &Data { a: 3, b: 4 });
}

#[test]
fn nodes_equal_by_name() {
    let mut arena = Arena::new();
    let a = Node::new(&mut arena, 1, Data { a: 0, b: 0 });
    let b = Node::new(&mut arena, 1, Data { a: 5, b: 5 });
    let c = Node::new(&mut arena, 2, Data { a: 0, b: 0 });
    assert!(arena.get(a).unwrap() == arena.get(b).unwrap());
    assert!(arena.get(a).unwrap() != arena.get(c).unwrap());
}

#[test]
fn stale_handle_from_elsewhere_does_not_resolve() {
    let arena: Arena<Data> = Arena::new();
    assert!(arena.get(NodeRef { index: 3 }).is_none());
}
