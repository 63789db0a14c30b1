use dotmake::deps_graph::DepsGraph;
use dotmake::deps_resolver::DepsConf;
use dotmake::path::Path;
use std::collections::{HashMap, HashSet};

/// A map from each node to the set of its dependencies.
fn graph_of(entries: &[(i32, &[i32])]) -> HashMap<i32, HashSet<i32>> {
    entries
        .iter()
        .map(|(node, deps)| (*node, deps.iter().copied().collect()))
        .collect()
}

/// The dependency graph of everything that the roots lead to in `graph`.
fn deps_graph(roots: &[i32], graph: &HashMap<i32, HashSet<i32>>) -> DepsGraph<i32> {
    DepsGraph::build(roots.to_vec(), |node: &i32| {
        let mut conf = DepsConf::new();
        if let Some(deps) = graph.get(node) {
            conf.add_deps(deps.iter().copied().collect());
        }
        conf
    })
}

/// Resolve a given graph starting with given roots and then assert that for
/// every (node, dep) pair from that graph position(dep) < position(node)
fn test_resolving(roots: &[i32], graph: &HashMap<i32, HashSet<i32>>) -> Vec<i32> {
    let deps_graph = deps_graph(roots, graph);
    let resolved = deps_graph.resolve().unwrap();
    println!("Resolved: {:?}", resolved);

    let positions: HashMap<_, _> = resolved.iter().map(|&&i| i).zip(0..).collect();
    for (node, deps) in graph {
        for dep in deps {
            if let (Some(node_pos), Some(dep_pos)) = (positions.get(node), positions.get(dep)) {
                assert!(
                    dep_pos < node_pos,
                    "pos({0}) <= pos({1}), but {0} depends on {1}",
                    node,
                    dep
                );
            }
        }
    }

    resolved.into_iter().map(|&i| i).collect()
}

#[test]
fn empty_roots() {
    let deps_graph = graph_of(&[(1, &[2, 3]), (2, &[3])]);
    assert!(test_resolving(&[], &deps_graph).is_empty());
}

#[test]
fn no_deps() {
    let deps_graph = graph_of(&[]);
    for i in 0..100 {
        let roots = (0..i).collect::<Vec<_>>();
        let mut resolved = test_resolving(&roots, &deps_graph);
        resolved.sort();
        assert_eq!(resolved, roots);
    }
}

#[test]
fn one_dep() {
    let deps_graph = graph_of(&[(1, &[2])]);
    assert_eq!(vec![2, 1], test_resolving(&[1], &deps_graph,),);
    assert_eq!(vec![2], test_resolving(&[2], &deps_graph,))
}

#[test]
fn two_simple_deps() {
    let deps_graph = &graph_of(&[(1, &[2]), (2, &[3])]);
    assert_eq!(test_resolving(&[1], &deps_graph), vec![3, 2, 1]);
    assert_eq!(test_resolving(&[2], &deps_graph), vec![3, 2]);
    assert_eq!(test_resolving(&[1, 2], &deps_graph), vec![3, 2, 1]);
    assert_eq!(test_resolving(&[3], &deps_graph), vec![3]);

    let deps_graph = graph_of(&[(1, &[2, 3])]);
    test_resolving(&[1], &deps_graph);
    assert_eq!(test_resolving(&[2], &deps_graph), vec![2]);
    assert_eq!(test_resolving(&[3], &deps_graph), vec![3]);

    let deps_graph = graph_of(&[(1, &[2]), (3, &[4])]);
    test_resolving(&[1, 3], &deps_graph);
    assert_eq!(test_resolving(&[2], &deps_graph), vec![2]);
    assert_eq!(test_resolving(&[3], &deps_graph), vec![4, 3]);
}

#[test]
fn multiple_nodes_with_commond_dep() {
    let deps_graph = graph_of(&[(1, &[3]), (2, &[3])]);
    test_resolving(&[1, 2], &deps_graph);
    assert_eq!(test_resolving(&[1], &deps_graph), vec![3, 1]);
    assert_eq!(test_resolving(&[2], &deps_graph), vec![3, 2]);
    assert_eq!(test_resolving(&[3], &deps_graph), vec![3]);

    let deps_graph = graph_of(&[(1, &[2, 3]), (2, &[3])]);
    assert_eq!(test_resolving(&[1], &deps_graph), vec![3, 2, 1]);
    assert_eq!(test_resolving(&[2], &deps_graph), vec![3, 2]);
    assert_eq!(test_resolving(&[3], &deps_graph), vec![3]);
    assert_eq!(test_resolving(&[1, 2], &deps_graph), vec![3, 2, 1]);
    assert_eq!(test_resolving(&[2, 3], &deps_graph), vec![3, 2]);
    assert_eq!(test_resolving(&[1, 3], &deps_graph), vec![3, 2, 1]);
    assert_eq!(test_resolving(&[1, 2, 3], &deps_graph), vec![3, 2, 1]);

    let deps_graph = graph_of(&[(1, &[4]), (2, &[4]), (3, &[4])]);
    test_resolving(&[1, 2, 3], &deps_graph);
    test_resolving(&[1, 2], &deps_graph);
    test_resolving(&[2, 3], &deps_graph);
    test_resolving(&[1, 3], &deps_graph);

    let deps_graph = graph_of(&[(1, &[2, 3]), (2, &[3, 4]), (3, &[4])]);
    assert_eq!(test_resolving(&[1], &deps_graph), vec![4, 3, 2, 1]);
    assert_eq!(test_resolving(&[2], &deps_graph), vec![4, 3, 2]);
    assert_eq!(test_resolving(&[3], &deps_graph), vec![4, 3]);
    assert_eq!(test_resolving(&[4], &deps_graph), vec![4]);

    let deps_graph = graph_of(&[(1, &[2, 3]), (2, &[3]), (3, &[4])]);
    assert_eq!(test_resolving(&[1], &deps_graph), vec![4, 3, 2, 1]);
    assert_eq!(test_resolving(&[2], &deps_graph), vec![4, 3, 2]);
    assert_eq!(test_resolving(&[3], &deps_graph), vec![4, 3]);
    assert_eq!(test_resolving(&[4], &deps_graph), vec![4]);

    let deps_graph = graph_of(&[(1, &[2, 3]), (2, &[3, 4]), (4, &[5])]);
    assert_eq!(5, test_resolving(&[1], &deps_graph).len());
    assert_eq!(5, test_resolving(&[1, 3], &deps_graph).len());
    assert_eq!(5, test_resolving(&[3, 1], &deps_graph).len());
    assert_eq!(test_resolving(&[3], &deps_graph), vec![3]);

    let deps_graph = graph_of(&[(1, &[2, 3]), (2, &[3, 4]), (4, &[5]), (7, &[2, 5])]);
    assert_eq!(5, test_resolving(&[1], &deps_graph).len());
    assert_eq!(6, test_resolving(&[1, 7], &deps_graph).len());
    assert_eq!(5, test_resolving(&[7], &deps_graph).len());
}

#[test]
fn display_path() {
    let path = Path::new(vec![1]);
    assert_eq!(path.to_string(), "1");

    let path = Path::new(vec![1, 2, 3]);
    assert_eq!(path.to_string(), "1 -> 2 -> 3");
}
