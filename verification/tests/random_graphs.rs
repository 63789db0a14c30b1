use dotmake::deps_graph::DepsGraph;
use std::collections::{HashMap, HashSet};

/// A small generator of numbers that gives the same run every time.
struct Lcg(u64);

impl Lcg {
    fn next(&mut self, below: u64) -> u64 {
        self.0 = self.0.wrapping_mul(6364136223846793005).wrapping_add(1442695040888963407);
        (self.0 >> 33) % below
    }
}

fn has_cycle(nodes: &HashSet<u64>, edges: &HashSet<(u64, u64)>) -> bool {
    // Take away nodes without dependencies among the rest until none is left.
    let mut rest: HashSet<u64> = nodes.clone();
    loop {
        let free: Vec<u64> = rest
            .iter()
            .copied()
            .filter(|n| !edges.iter().any(|(a, b)| a == n && rest.contains(b)))
            .collect();
        if free.is_empty() {
            return !rest.is_empty();
        }
        for n in free {
            rest.remove(&n);
        }
    }
}

#[test]
fn random_graphs_resolve_to_an_order_or_to_a_cycle() {
    let mut random = Lcg(42);
    for round in 0..300 {
        let size = 1 + random.next(12);
        let count = random.next(2 * size + 1);
        let mut graph = DepsGraph::<u64>::new();
        let mut nodes = HashSet::new();
        let mut edges = HashSet::new();
        for _ in 0..count {
            let (node, dep) = (random.next(size), random.next(size));
            graph.add_dep(node, dep);
            nodes.insert(node);
            nodes.insert(dep);
            edges.insert((node, dep));
        }
        let loops = graph.find_loops();
        match graph.resolve() {
            Ok(order) => {
                assert!(!has_cycle(&nodes, &edges), "round {}", round);
                assert!(loops.is_empty());
                assert_eq!(order.len(), nodes.len());
                let positions: HashMap<u64, usize> =
                    order.iter().enumerate().map(|(i, n)| (**n, i)).collect();
                assert_eq!(positions.len(), nodes.len());
                for (node, dep) in &edges {
                    assert!(positions[dep] < positions[node], "round {}", round);
                }
            }
            Err(e) => {
                assert!(has_cycle(&nodes, &edges), "round {}", round);
                assert!(!loops.is_empty());
                let path = e.into_path().into_vec();
                assert_eq!(path, loops[0]);
                assert!(path.len() >= 2);
                assert_eq!(path.first(), path.last());
                for pair in path.windows(2) {
                    assert!(edges.contains(&(pair[0], pair[1])), "round {}", round);
                }
                let inner: HashSet<&u64> = path[..path.len() - 1].iter().collect();
                assert_eq!(inner.len(), path.len() - 1);
            }
        }
        for path in &loops {
            assert_eq!(path.first(), path.last());
            for pair in path.windows(2) {
                assert!(edges.contains(&(pair[0], pair[1])), "round {}", round);
            }
        }
        // Without the last edge of each loop no cycle is left.
        let mut cut = edges.clone();
        for path in &loops {
            cut.remove(&(path[path.len() - 2], path[path.len() - 1]));
        }
        assert!(!has_cycle(&nodes, &cut), "round {}", round);
    }
}
