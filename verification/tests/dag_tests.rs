use std::collections::HashSet;

use dagflow::dag::dag::Dag;
use dagflow::dag::node::Node;
use dagflow::dag::node::Resolveable;
use dagflow::errors::DagError;

#[derive(Hash, Eq, PartialEq, Debug)]
struct MockResolveable {
    id: char,
    done: bool,
}

impl MockResolveable {
    fn new(id: char) -> MockResolveable {
        MockResolveable { id, done: false }
    }
}

impl Resolveable for MockResolveable {
    fn spec_started(&self) -> bool {
        self.done
    }
    fn spec_resolved(&self) -> bool {
        self.done
    }
    fn start(&mut self) {
        self.done = true
    }
    fn is_started(&self) -> bool {
        self.done
    }
    fn is_resolved(&self) -> bool {
        self.done
    }
}

#[test]
fn dag_node_hash() {
    let a = Node::new(MockResolveable::new('A'));
    let b = Node::new(MockResolveable::new('B'));
    let c = Node::new(MockResolveable::new('C'));
    let d = Node::new(MockResolveable::new('D'));
    let e = Node::new(MockResolveable::new('E'));
    let f = Node::new(MockResolveable::new('F'));
    let g = Node::new(MockResolveable::new('G'));
    let h = Node::new(MockResolveable::new('H'));

    let mut hash: HashSet<&Node<MockResolveable>> = HashSet::new();

    hash.insert(&a);
    hash.insert(&b);
    hash.insert(&c);
    hash.insert(&d);
    hash.insert(&e);
    hash.insert(&f);
    hash.insert(&g);
    hash.insert(&h);

    assert!(hash.contains(&a), "Node did not hash properly");
    assert!(hash.contains(&b), "Node did not hash properly");
    assert!(hash.contains(&c), "Node did not hash properly");
    assert!(hash.contains(&d), "Node did not hash properly");
    assert!(hash.contains(&e), "Node did not hash properly");
    assert!(hash.contains(&f), "Node did not hash properly");
    assert!(hash.contains(&g), "Node did not hash properly");
    assert!(hash.contains(&h), "Node did not hash properly");
}

#[test]
fn dag_build_edges() {
    // the edge chain of a diamond-and-tail graph goes in cleanly
    let mut dag: Dag<MockResolveable> = Dag::new();
    let a = dag.add(Node::new(MockResolveable::new('A')));
    let b = dag.add(Node::new(MockResolveable::new('B')));
    let c = dag.add(Node::new(MockResolveable::new('C')));
    let d = dag.add(Node::new(MockResolveable::new('D')));
    assert_eq!((a, b, c, d), (0, 1, 2, 3));

    assert!(dag.dep(b, a).is_ok());
    assert!(dag.dep(c, b).is_ok());
    assert!(dag.dep(d, b).is_ok());
    assert!(dag.dep(d, c).is_ok());
    dag.build();

    assert!(dag.nodes[1].dependencies.contains(&0));
    assert!(dag.nodes[0].dependants.contains(&1));
    // closing the diamond back to front is rejected
    assert!(matches!(dag.dep(a, d), Err(DagError::CycleDetected(_))));
}

#[test]
fn dep_rejects_unregistered_node() {
    let mut dag: Dag<MockResolveable> = Dag::new();
    let a = dag.add(Node::new(MockResolveable::new('A')));
    assert_eq!(dag.dep(a, 7), Err(DagError::NodeNotRegistered));
    assert_eq!(dag.dep(9, a), Err(DagError::NodeNotRegistered));
    // the rejected calls left the node untouched
    assert!(dag.nodes[0].dependencies.is_empty());
    assert!(dag.nodes[0].dependants.is_empty());
}

#[test]
fn mutual_edges_rejected_without_trace() {
    // X and Y with attempted mutual edges: the second is rejected and
    // leaves no partial state
    let mut dag: Dag<MockResolveable> = Dag::new();
    let x = dag.add(Node::new(MockResolveable::new('X')));
    let y = dag.add(Node::new(MockResolveable::new('Y')));

    assert!(dag.dep(y, x).is_ok());
    assert!(matches!(dag.dep(x, y), Err(DagError::CycleDetected(_))));

    assert!(!dag.nodes[x].dependencies.contains(&y));
    assert!(!dag.nodes[y].dependants.contains(&x));

    // a subsequent valid edge over the same nodes still succeeds
    let z = dag.add(Node::new(MockResolveable::new('Z')));
    assert!(dag.dep(z, x).is_ok());
    assert!(dag.nodes[z].dependencies.contains(&x));
}

#[test]
fn self_edge_rejected() {
    let mut dag: Dag<MockResolveable> = Dag::new();
    let a = dag.add(Node::new(MockResolveable::new('A')));
    assert!(matches!(dag.dep(a, a), Err(DagError::CycleDetected(_))));
    assert!(dag.nodes[a].dependencies.is_empty());
}

#[test]
fn resolved_reports_payload_state() {
    let mut value = MockResolveable::new('A');
    value.start();
    let done = Node::new(value);
    let pending = Node::new(MockResolveable::new('B'));
    assert!(done.resolved());
    assert!(!pending.resolved());
}
