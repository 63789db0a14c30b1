use dotmake::deps_graph::DepsGraph;
use dotmake::deps_resolver::DepsConf;
use dotmake::identifier::Identifier;
use dotmake::path::{Cycle, CycleError, Path};
use dotmake::text::{signed_text, unsigned_text};

fn sorted(items: &Vec<i32>) -> Vec<i32> {
    let mut items = items.clone();
    items.sort();
    items
}

#[test]
fn new_declaration_names_nothing() {
    let conf = DepsConf::<i32>::new();
    assert!(conf.deps().is_empty());
    assert!(conf.post_deps().is_empty());
}

#[test]
fn added_rules_are_held_once() {
    let mut conf = DepsConf::new();
    conf.add_deps(vec![1, 2, 1]);
    conf.add_deps(vec![2, 3]);
    conf.add_post_deps(vec![7, 7]);
    assert_eq!(conf.deps(), &vec![1, 2, 3]);
    assert_eq!(conf.post_deps(), &vec![7]);
}

#[test]
fn merged_declaration_holds_both() {
    let mut conf = DepsConf::new();
    conf.add_deps(vec![1]);
    conf.add_post_deps(vec![5]);
    let mut other = DepsConf::new();
    other.add_deps(vec![1, 2]);
    other.add_post_deps(vec![6]);
    conf.merge(other);
    assert_eq!(sorted(conf.deps()), vec![1, 2]);
    assert_eq!(sorted(conf.post_deps()), vec![5, 6]);
}

#[test]
fn removed_rules_are_gone() {
    let mut conf = DepsConf::new();
    conf.add_deps(vec![1, 2, 3]);
    conf.add_post_deps(vec![4, 5]);
    conf.remove_deps(&vec![2, 9]);
    assert_eq!(conf.deps(), &vec![1, 3]);
    assert_eq!(conf.post_deps(), &vec![4, 5]);
    conf.remove_post_deps(&vec![4]);
    assert_eq!(conf.deps(), &vec![1, 3]);
    assert_eq!(conf.post_deps(), &vec![5]);
}

#[test]
fn disjoined_declaration_holds_the_difference() {
    let mut conf = DepsConf::new();
    conf.add_deps(vec![1, 2, 3]);
    conf.add_post_deps(vec![4, 5]);
    let mut other = DepsConf::new();
    other.add_deps(vec![3, 1]);
    other.add_post_deps(vec![5, 1]);
    conf.disjoin(&other);
    assert_eq!(conf.deps(), &vec![2]);
    assert_eq!(conf.post_deps(), &vec![4]);
    let copy = conf.duplicate();
    assert_eq!(copy.deps(), &vec![2]);
    assert_eq!(copy.post_deps(), &vec![4]);
}

#[test]
fn path_gives_its_nodes_back() {
    let path = Path::new(vec![4, 5, 6]);
    assert_eq!(path.len(), 3);
    assert_eq!(path.first(), &4);
    assert_eq!(path.last(), &6);
    assert_eq!(path.as_vec(), &vec![4, 5, 6]);
    assert_eq!(path.into_vec(), vec![4, 5, 6]);
}

#[test]
fn path_of_borrowed_nodes_owns_them() {
    let nodes = vec![1, 2, 3];
    let borrowed: Path<&i32> = Path::new(nodes.iter().collect());
    assert_eq!(borrowed.own_nodes(), Path::new(vec![1, 2, 3]));
}

#[test]
fn path_of_identifiers_is_written_with_arrows() {
    let path = Path::new(vec![
        Identifier::new("a".to_string()).unwrap(),
        Identifier::new("b-c".to_string()).unwrap(),
    ]);
    assert_eq!(path.to_string(), "a -> b-c");
    let path = Path::new(vec![-12, 0, 340]);
    assert_eq!(path.to_string(), "-12 -> 0 -> 340");
}

#[test]
fn cycle_error_says_what_was_found() {
    let e = CycleError::new(Path::new(vec![1, 2, 1]));
    assert_eq!(e.to_string(), "Found cycle in dependencies graph: 1 -> 2 -> 1");
    assert_eq!(e.path(), &Path::new(vec![1, 2, 1]));
    assert_eq!(e.into_path().into_vec(), vec![1, 2, 1]);
}

#[test]
fn cycle_error_of_a_graph() {
    let mut graph = DepsGraph::<i32>::new();
    graph.add_dep(1, 2);
    graph.add_dep(2, 3);
    graph.add_dep(3, 2);
    let e = graph.resolve().unwrap_err();
    assert_eq!(e, CycleError::new(Path::new(vec![2, 3, 2])));
    assert_eq!(graph.find_loops(), vec![vec![2, 3, 2]]);
}

#[test]
fn cycle_is_written_with_arrows() {
    let cycle = Cycle::new(vec![1u64, 2, 3, 1]);
    assert_eq!(cycle.nodes(), &vec![1, 2, 3, 1]);
    assert_eq!(cycle.to_string(), "1 -> 2 -> 3 -> 1");
    assert_eq!(Cycle::new(vec![7usize]).to_string(), "7");
}

#[test]
fn decimal_text_of_numbers() {
    assert_eq!(unsigned_text(0), "0");
    assert_eq!(unsigned_text(9), "9");
    assert_eq!(unsigned_text(10), "10");
    assert_eq!(unsigned_text(1234567890), "1234567890");
    assert_eq!(unsigned_text(u64::MAX), u64::MAX.to_string());
    assert_eq!(signed_text(0), "0");
    assert_eq!(signed_text(-1), "-1");
    assert_eq!(signed_text(-105), "-105");
    assert_eq!(signed_text(i64::MAX), i64::MAX.to_string());
    assert_eq!(signed_text(i64::MIN), i64::MIN.to_string());
    for n in -1000i64..1000 {
        assert_eq!(signed_text(n * 37), (n * 37).to_string());
    }
}

#[test]
fn nodes_come_one_by_one_in_resolved_order() {
    let mut graph = DepsGraph::<i32>::new();
    graph.add_dep(1, 2);
    graph.add_dep(2, 3);
    let mut nodes = graph.iter().unwrap();
    assert_eq!(nodes.next(), Some(&3));
    assert_eq!(nodes.next(), Some(&2));
    assert_eq!(nodes.next(), Some(&1));
    assert_eq!(nodes.next(), None);
    assert_eq!(nodes.next(), None);

    graph.add_dep(3, 1);
    match graph.iter() {
        Err(e) => assert_eq!(e.into_path().into_vec(), vec![1, 2, 3, 1]),
        Ok(_) => panic!("the graph has a cycle"),
    }
}
