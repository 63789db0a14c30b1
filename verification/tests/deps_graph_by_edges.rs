use dotmake::deps_graph::DepsGraph;
use std::collections::HashMap;
use std::collections::HashSet;

fn root_values(graph: &DepsGraph<i32>) -> Vec<i32> {
    graph.roots().into_iter().map(|&n| n).collect()
}

#[test]
fn roots() {
    for i in 1..100 {
        let nodes = (0..i).collect::<Vec<_>>();
        let mut roots: Vec<_> = root_values(&DepsGraph::init(nodes.clone()));
        roots.sort();
        assert_eq!(roots, nodes);
    }

    let mut graph = DepsGraph::<i32>::new();
    graph.add_dep(1, 2);
    let roots: Vec<_> = graph.roots().into_iter().collect();
    assert_eq!(roots, vec![&1]);

    let mut graph = DepsGraph::<i32>::new();
    graph.add_dep(1, 2);
    graph.add_dep(2, 3);
    let roots: Vec<_> = graph.roots().into_iter().collect();
    assert_eq!(roots, vec![&1]);

    let mut graph = DepsGraph::<i32>::new();
    graph.add_dep(1, 2);
    graph.add_dep(3, 4);
    assert!(graph.roots().len() == 2);
    assert!(graph.roots().contains(&&1));
    assert!(graph.roots().contains(&&3));
}

#[test]
fn deps_graph_roots() {
    for i in 1..100 {
        let mut roots: Vec<_> = root_values(&DepsGraph::init((0..i).collect()));
        roots.sort();
        assert_eq!(roots, (0..i).collect::<Vec<_>>());
    }

    let mut graph = DepsGraph::<i32>::new();
    graph.add_dep(1, 2);
    let roots: Vec<_> = root_values(&graph);
    assert_eq!(roots, vec![1]);

    let mut graph = DepsGraph::<i32>::new();
    graph.add_dep(1, 2);
    graph.add_dep(2, 3);
    let roots: Vec<_> = root_values(&graph);
    assert_eq!(roots, vec![1]);

    let mut graph = DepsGraph::<i32>::new();
    graph.add_dep(1, 2);
    graph.add_dep(3, 4);
    let roots = root_values(&graph);
    assert!(roots.len() == 2);
    assert!(roots.contains(&1));
    assert!(roots.contains(&3));
}

#[test]
fn empty() {
    assert_eq!(DepsGraph::<i32>::new().resolve().unwrap().len(), 0);
    assert_eq!(DepsGraph::<i32>::init(vec![]).resolve().unwrap().len(), 0);
}

#[test]
fn deps_graph_empty() {
    assert_eq!(DepsGraph::<i32>::new().resolve().unwrap().into_iter().count(), 0);
    assert_eq!(DepsGraph::<i32>::init(vec![]).resolve().unwrap().into_iter().count(), 0);
}

#[test]
fn deps_graph_no_deps() {
    for i in 1..100 {
        let nodes = (0..i).collect::<Vec<_>>();
        let graph = DepsGraph::init(nodes.clone());
        let mut resolved: Vec<_> = graph.resolve().unwrap();
        resolved.sort();
        assert!(resolved.into_iter().eq(nodes.iter()));
    }
}

fn test_resolving(edges: Vec<(i32, i32)>) {
    let mut graph = DepsGraph::new();
    let mut nodes = HashSet::new();
    for &(node, dep) in edges.iter() {
        graph.add_dep(node, dep);
        nodes.insert(node);
        nodes.insert(dep);
    }

    let resolved: Vec<i32> = graph.resolve().unwrap().into_iter().map(|&n| n).collect();
    println!("Resolved: {:?}", resolved);
    assert_eq!(
        resolved.len(),
        nodes.len(),
        "{} nodes inserted, but {} resolved",
        nodes.len(),
        resolved.len()
    );

    let positions: HashMap<_, _> = resolved
        .into_iter()
        .enumerate()
        .map(|(i, d)| (d, i))
        .collect();
    for &(node, dep) in edges.iter() {
        assert!(
            positions[&dep] < positions[&node],
            "pos({0}) < pos({1}), but {0} depends on {1}",
            node,
            dep
        );
    }
}

#[test]
fn deps_graph_one_dep() {
    test_resolving(vec![(1, 2)]);
    test_resolving(vec![(2, 1)]);
}

#[test]
fn deps_graph_two_simple_deps() {
    test_resolving(vec![(1, 2), (2, 3)]);
    test_resolving(vec![(1, 2), (0, 1)]);
    test_resolving(vec![(1, 2), (1, 3)]);
    test_resolving(vec![(1, 2), (3, 4)]);
}

#[test]
fn deps_graph_multiple_nodes_with_commond_dep() {
    test_resolving(vec![(1, 3), (2, 3)]);
    test_resolving(vec![(1, 3), (1, 2), (2, 3)]);
    test_resolving(vec![(1, 4), (2, 4), (3, 4)]);
    test_resolving(vec![(1, 2), (1, 3), (2, 3), (2, 4), (3, 4)]);
    test_resolving(vec![(1, 2), (2, 3), (1, 3), (3, 4)]);
}

#[test]
fn find_no_loops() {
    for i in 1..100 {
        let graph = DepsGraph::init((0..i).collect());
        assert!(graph.find_loops().is_empty());
    }

    let mut graph = DepsGraph::<i32>::new();
    graph.add_dep(1, 2);
    graph.add_dep(1, 3);
    assert!(graph.find_loops().is_empty());

    let mut graph = DepsGraph::<i32>::new();
    graph.add_dep(1, 2);
    graph.add_dep(3, 4);
    assert!(graph.find_loops().is_empty());

    let mut graph = DepsGraph::<i32>::new();
    graph.add_dep(1, 2);
    graph.add_dep(2, 3);
    assert!(graph.find_loops().is_empty());

    let mut graph = DepsGraph::<i32>::new();
    graph.add_dep(1, 2);
    graph.add_dep(0, 1);
    assert!(graph.find_loops().is_empty());

    let mut graph = DepsGraph::<i32>::new();
    graph.add_dep(1, 2);
    graph.add_dep(1, 3);
    graph.add_dep(2, 3);
    assert!(graph.find_loops().is_empty());
}

#[test]
fn find_single_loop() {
    let mut graph = DepsGraph::<i32>::new();
    graph.add_dep(1, 1);
    assert_eq!(graph.find_loops(), vec![vec![1, 1]]);

    let mut graph = DepsGraph::<i32>::new();
    graph.add_dep(1, 2);
    graph.add_dep(2, 1);
    assert_eq!(graph.find_loops(), vec![vec![1, 2, 1]]);

    let mut graph = DepsGraph::<i32>::new();
    graph.add_dep(1, 2);
    graph.add_dep(2, 3);
    graph.add_dep(3, 1);
    graph.add_dep(1, 4);
    graph.add_dep(1, 5);
    assert_eq!(graph.find_loops(), vec![vec![1, 2, 3, 1]]);
}

#[test]
fn find_multiple_loops() {
    let mut graph = DepsGraph::<i32>::new();
    graph.add_dep(1, 2);
    graph.add_dep(2, 1);
    graph.add_dep(3, 3);
    graph.add_dep(4, 5);
    graph.add_dep(5, 4);

    let loops = graph.find_loops();
    println!("Found loops: {:?}", loops);
    assert_eq!(loops.len(), 3);
    assert!(loops.contains(&vec![1, 2, 1]));
    assert!(loops.contains(&vec![3, 3]));
    assert!(loops.contains(&vec![4, 5, 4]));
}
