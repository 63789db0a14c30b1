use dotmake::deps_graph::DepsGraph;
use dotmake::deps_resolver::{DepsConf, DepsResolver, ResolveError};
use dotmake::identifier::Identifier;
use std::collections::HashMap;

fn conf(deps: &[i32], post_deps: &[i32]) -> DepsConf<i32> {
    let mut conf = DepsConf::new();
    conf.add_deps(deps.to_vec());
    conf.add_post_deps(post_deps.to_vec());
    conf
}

/// Declarations by rule: the dependencies and the post-dependencies of each.
fn store(entries: &[(i32, &[i32], &[i32])]) -> HashMap<i32, (Vec<i32>, Vec<i32>)> {
    entries
        .iter()
        .map(|(rule, deps, posts)| (*rule, (deps.to_vec(), posts.to_vec())))
        .collect()
}

/// Resolves the roots against the store; a rule without an entry declares
/// nothing.
fn resolve(roots: &[i32], store: &HashMap<i32, (Vec<i32>, Vec<i32>)>) -> Result<Vec<i32>, Vec<i32>> {
    let graph = DepsGraph::build(roots.to_vec(), |rule: &i32| match store.get(rule) {
        Some((deps, posts)) => conf(deps, posts),
        None => conf(&[], &[]),
    });
    match graph.resolve() {
        Ok(order) => Ok(order.into_iter().copied().collect()),
        Err(e) => Err(e.into_path().into_vec()),
    }
}

fn position(order: &[i32], rule: i32) -> usize {
    order.iter().position(|&r| r == rule).unwrap()
}

#[test]
fn independent_roots_resolve_to_themselves_in_any_request_order() {
    let store = store(&[(1, &[], &[]), (2, &[], &[]), (3, &[], &[]), (4, &[], &[])]);
    for roots in [vec![1, 2, 3, 4], vec![4, 3, 2, 1], vec![2, 4, 1, 3], vec![3, 3, 1, 2, 4, 1]] {
        let mut order = resolve(&roots, &store).unwrap();
        assert_eq!(order.len(), 4);
        order.sort();
        assert_eq!(order, vec![1, 2, 3, 4]);
    }
}

#[test]
fn single_edge() {
    let store = store(&[(1, &[2], &[])]);
    assert_eq!(resolve(&[1], &store), Ok(vec![2, 1]));
    assert_eq!(resolve(&[2], &store), Ok(vec![2]));
}

#[test]
fn transitive_chain() {
    let store = store(&[(1, &[2], &[]), (2, &[3], &[])]);
    assert_eq!(resolve(&[1], &store), Ok(vec![3, 2, 1]));
}

#[test]
fn diamond_holds_the_shared_dependency_once() {
    let store = store(&[(1, &[2, 3], &[]), (2, &[4], &[]), (3, &[4], &[])]);
    let order = resolve(&[1], &store).unwrap();
    assert_eq!(order.len(), 4);
    assert_eq!(order.iter().filter(|&&r| r == 4).count(), 1);
    assert!(position(&order, 4) < position(&order, 2));
    assert!(position(&order, 4) < position(&order, 3));
    assert!(position(&order, 2) < position(&order, 1));
    assert!(position(&order, 3) < position(&order, 1));
}

#[test]
fn post_dependency_is_an_inverted_dependency() {
    let with_post = store(&[(1, &[], &[2]), (2, &[], &[])]);
    let with_dep = store(&[(1, &[], &[]), (2, &[1], &[])]);
    for roots in [vec![1, 2], vec![2, 1]] {
        let by_post = resolve(&roots, &with_post).unwrap();
        let by_dep = resolve(&roots, &with_dep).unwrap();
        assert_eq!(by_post, vec![1, 2]);
        assert_eq!(by_dep, vec![1, 2]);
    }
}

#[test]
fn post_dependency_of_a_requested_rule_is_performed_after_it() {
    let store = store(&[(1, &[], &[2]), (2, &[3], &[])]);
    assert_eq!(resolve(&[1], &store), Ok(vec![1, 3, 2]));
}

#[test]
fn self_cycle() {
    let store = store(&[(1, &[1], &[])]);
    assert_eq!(resolve(&[1], &store), Err(vec![1, 1]));
}

#[test]
fn multi_node_cycle() {
    let store = store(&[(1, &[2], &[]), (2, &[3], &[]), (3, &[1], &[])]);
    let path = resolve(&[1], &store).unwrap_err();
    assert_eq!(path.first(), path.last());
    for rule in [1, 2, 3] {
        assert!(path.contains(&rule));
    }
    assert_eq!(path, vec![1, 2, 3, 1]);
}

#[test]
fn cycle_through_a_post_dependency() {
    let store = store(&[(1, &[2], &[2])]);
    let path = resolve(&[1], &store).unwrap_err();
    assert_eq!(path, vec![1, 2, 1]);
}

#[test]
fn cycle_that_no_root_is_part_of() {
    let store = store(&[(1, &[2], &[]), (2, &[3], &[]), (3, &[2], &[])]);
    let path = resolve(&[1], &store).unwrap_err();
    assert_eq!(path, vec![2, 3, 2]);
}

#[test]
fn unrequested_rules_are_resolved_with_all_they_depend_on() {
    let store = store(&[(1, &[2], &[]), (2, &[3, 4], &[])]);
    let order = resolve(&[1], &store).unwrap();
    assert_eq!(order.len(), 4);
    assert!(position(&order, 3) < position(&order, 2));
    assert!(position(&order, 4) < position(&order, 2));
    assert!(position(&order, 2) < position(&order, 1));
}

#[test]
fn resolving_again_gives_the_same_relative_order() {
    let store = store(&[(1, &[2, 3], &[]), (2, &[4], &[5]), (3, &[4], &[]), (6, &[], &[1])]);
    let first = resolve(&[1, 6], &store).unwrap();
    let second = resolve(&[1, 6], &store).unwrap();
    assert_eq!(first.len(), second.len());
    for (node, dep) in [(1, 2), (1, 3), (2, 4), (3, 4), (5, 2), (1, 6)] {
        assert!(position(&first, dep) < position(&first, node));
        assert!(position(&second, dep) < position(&second, node));
    }
}

#[test]
fn graph_is_built_once_and_resolved_twice() {
    let store = store(&[(1, &[2], &[]), (2, &[3], &[])]);
    let graph = DepsGraph::build(vec![1], |rule: &i32| match store.get(rule) {
        Some((deps, posts)) => conf(deps, posts),
        None => conf(&[], &[]),
    });
    assert_eq!(graph.resolve().unwrap(), vec![&3, &2, &1]);
    assert_eq!(graph.resolve().unwrap(), vec![&3, &2, &1]);
    assert!(graph.find_loops().is_empty());
}

#[test]
fn added_dependencies_in_turn() {
    let mut graph = DepsGraph::<i32>::new();
    graph.add_deps(&1, &vec![2, 3, 2]);
    graph.add_deps(&4, &vec![]);
    graph.add_node(5);
    graph.add_node(2);
    let roots: Vec<i32> = graph.roots().into_iter().copied().collect();
    assert_eq!(roots, vec![1, 5]);
    let order: Vec<i32> = graph.resolve().unwrap().into_iter().copied().collect();
    assert_eq!(order, vec![2, 3, 1, 5]);
}

#[test]
fn try_build_names_the_unknown_rule() {
    let store = store(&[(1, &[2], &[]), (2, &[], &[7])]);
    let res = DepsGraph::try_build(vec![1], |rule: &i32| {
        store.get(rule).map(|(deps, posts)| conf(deps, posts))
    });
    match res {
        Err(rule) => assert_eq!(rule, 7),
        Ok(_) => panic!("rule 7 has no declaration"),
    }
}

fn id(name: &str) -> Identifier {
    Identifier::new(name.to_string()).unwrap()
}

fn ids(names: &[&str]) -> Vec<Identifier> {
    names.iter().map(|name| id(name)).collect()
}

fn rules() -> HashMap<String, (Vec<&'static str>, Vec<&'static str>)> {
    let mut rules = HashMap::new();
    rules.insert("vim".to_string(), (vec!["git", "shell"], vec![]));
    rules.insert("git".to_string(), (vec![], vec![]));
    rules.insert("shell".to_string(), (vec![], vec!["prompt"]));
    rules.insert("prompt".to_string(), (vec![], vec![]));
    rules.insert("loop-a".to_string(), (vec!["loop-b"], vec![]));
    rules.insert("loop-b".to_string(), (vec!["loop-a"], vec![]));
    rules.insert("broken".to_string(), (vec!["missing"], vec![]));
    rules
}

fn resolve_rules(roots: &[&str]) -> Result<Vec<String>, ResolveError<Identifier>> {
    let rules = rules();
    let resolver = DepsResolver::init(ids(roots), |rule: &Identifier| {
        rules.get(rule.as_str()).map(|(deps, posts)| {
            let mut conf = DepsConf::new();
            conf.add_deps(ids(deps));
            conf.add_post_deps(ids(posts));
            conf
        })
    });
    resolver
        .try_resolve()
        .map(|order| order.iter().map(|rule| rule.to_string()).collect())
}

#[test]
fn resolver_orders_named_rules() {
    assert_eq!(
        resolve_rules(&["vim"]).unwrap(),
        vec!["git", "shell", "vim", "prompt"]
    );
    assert_eq!(resolve_rules(&["git", "git"]).unwrap(), vec!["git"]);
    assert_eq!(resolve_rules(&[]).unwrap(), Vec::<String>::new());
}

#[test]
fn resolver_reports_an_unknown_rule() {
    assert_eq!(
        resolve_rules(&["broken"]),
        Err(ResolveError::UnknownIdentifier(id("missing")))
    );
    assert_eq!(
        resolve_rules(&["git", "nothing"]),
        Err(ResolveError::UnknownIdentifier(id("nothing")))
    );
}

#[test]
fn resolver_reports_a_cycle() {
    match resolve_rules(&["git", "loop-a"]) {
        Err(ResolveError::CycleDetected(cycle)) => {
            assert_eq!(cycle.nodes(), &ids(&["loop-a", "loop-b", "loop-a"]));
            assert_eq!(cycle.to_string(), "loop-a -> loop-b -> loop-a");
        }
        other => panic!("expected a cycle, got {:?}", other),
    }
}
