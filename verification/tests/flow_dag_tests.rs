use std::collections::HashSet;

use dagflow::errors::DagError;
use dagflow::flow::dag::Dag;
use dagflow::flow::dag::node::Node;

#[derive(Hash, Eq, PartialEq, Debug)]
struct MockStruct {
    id: char,
}

impl MockStruct {
    fn new(id: char) -> MockStruct {
        MockStruct { id }
    }
}

#[test]
fn remove_nodes() {
    let a = Dag::node(MockStruct::new('A'));
    let b = Dag::node(MockStruct::new('B'));

    let mut nodes = vec![a, b];
    Dag::dep(&mut nodes, 1, 0).unwrap();
    let mut dag = Dag::build(nodes).unwrap();

    assert!(
        !dag.nodes[1].dependencies.is_empty(),
        "Node was not successfully removed"
    );
    dag.remove(0);
    assert!(
        dag.nodes[1].dependencies.is_empty(),
        "Node was not successfully removed"
    );
}

#[test]
fn node_hash() {
    let a = Node::new(MockStruct::new('A'));
    let b = Node::new(MockStruct::new('B'));
    let c = Node::new(MockStruct::new('C'));
    let d = Node::new(MockStruct::new('D'));
    let e = Node::new(MockStruct::new('E'));
    let f = Node::new(MockStruct::new('F'));
    let g = Node::new(MockStruct::new('G'));
    let h = Node::new(MockStruct::new('H'));

    let mut hash: HashSet<&Node<MockStruct>> = HashSet::new();

    hash.insert(&a);
    hash.insert(&b);
    hash.insert(&c);
    hash.insert(&d);
    hash.insert(&e);
    hash.insert(&f);
    hash.insert(&g);
    hash.insert(&h);

    assert!(hash.contains(&a), "Node did not hash properly");
    assert!(hash.contains(&b), "Node did not hash properly");
    assert!(hash.contains(&c), "Node did not hash properly");
    assert!(hash.contains(&d), "Node did not hash properly");
    assert!(hash.contains(&e), "Node did not hash properly");
    assert!(hash.contains(&f), "Node did not hash properly");
    assert!(hash.contains(&g), "Node did not hash properly");
    assert!(hash.contains(&h), "Node did not hash properly");
}

#[test]
fn build_requires_roots() {
    // every node has a dependency: the fully cyclic pair has no root
    let mut nodes = vec![
        Dag::node(MockStruct::new('X')),
        Dag::node(MockStruct::new('Y')),
    ];
    Dag::dep(&mut nodes, 0, 1).unwrap();
    Dag::dep(&mut nodes, 1, 0).unwrap();
    assert_eq!(Dag::build(nodes).err(), Some(DagError::NoRoots));
}

#[test]
fn build_detects_reachable_cycle() {
    // a is a root; b and c form a cycle reachable from a
    let mut nodes = vec![
        Dag::node(MockStruct::new('A')),
        Dag::node(MockStruct::new('B')),
        Dag::node(MockStruct::new('C')),
    ];
    Dag::dep(&mut nodes, 1, 0).unwrap();
    Dag::dep(&mut nodes, 2, 1).unwrap();
    Dag::dep(&mut nodes, 1, 2).unwrap();
    assert!(matches!(
        Dag::build(nodes),
        Err(DagError::CycleDetected(_))
    ));
}

#[test]
fn build_rejects_out_of_range_edge() {
    let mut node = Dag::node(MockStruct::new('A'));
    node.dependencies.push(5);
    assert_eq!(
        Dag::build(vec![node]).err(),
        Some(DagError::NodeNotRegistered)
    );
}

#[test]
fn build_rejects_half_edge() {
    // a one-sided edge entry, inserted by hand, is rejected
    let mut a = Dag::node(MockStruct::new('A'));
    let b = Dag::node(MockStruct::new('B'));
    a.dependencies.push(1);
    assert_eq!(
        Dag::build(vec![a, b]).err(),
        Some(DagError::NodeNotRegistered)
    );
}

#[test]
fn remove_promotes_unblocked_dependants() {
    // c depends on both a and b; removing only a leaves it blocked
    let mut nodes = vec![
        Dag::node(MockStruct::new('A')),
        Dag::node(MockStruct::new('B')),
        Dag::node(MockStruct::new('C')),
    ];
    Dag::dep(&mut nodes, 2, 0).unwrap();
    Dag::dep(&mut nodes, 2, 1).unwrap();
    let mut dag = Dag::build(nodes).unwrap();
    assert_eq!(dag.roots, vec![0, 1]);

    dag.remove(0);
    assert_eq!(dag.roots, vec![1]);
    dag.remove(1);
    assert!(dag.roots.contains(&2));
    assert!(!dag.present[0] && !dag.present[1] && dag.present[2]);
}

#[test]
fn node_remove_is_idempotent() {
    let mut nodes = vec![
        Dag::node(MockStruct::new('A')),
        Dag::node(MockStruct::new('B')),
        Dag::node(MockStruct::new('C')),
    ];
    Dag::dep(&mut nodes, 1, 0).unwrap();
    Dag::dep(&mut nodes, 2, 0).unwrap();
    Dag::dep(&mut nodes, 2, 1).unwrap();

    Node::remove(&mut nodes, 0);
    let deps_after_first: Vec<Vec<usize>> =
        nodes.iter().map(|n| n.dependencies.clone()).collect();
    let dnts_after_first: Vec<Vec<usize>> = nodes.iter().map(|n| n.dependants.clone()).collect();

    Node::remove(&mut nodes, 0);
    let deps_after_second: Vec<Vec<usize>> =
        nodes.iter().map(|n| n.dependencies.clone()).collect();
    let dnts_after_second: Vec<Vec<usize>> = nodes.iter().map(|n| n.dependants.clone()).collect();

    assert_eq!(deps_after_first, deps_after_second);
    assert_eq!(dnts_after_first, dnts_after_second);
    assert!(nodes[1].dependencies.is_empty());
    assert_eq!(nodes[2].dependencies, vec![1]);
}

#[test]
fn insert_registers_and_revalidates() {
    let mut nodes = vec![
        Dag::node(MockStruct::new('A')),
        Dag::node(MockStruct::new('B')),
    ];
    Dag::dep(&mut nodes, 1, 0).unwrap();
    let mut dag = Dag::build(nodes).unwrap();

    // a new node depending on b joins the graph and pairs its edges
    let mut c = Dag::node(MockStruct::new('C'));
    c.dependencies.push(1);
    assert_eq!(dag.insert(c), Ok(2));
    assert!(dag.nodes[1].dependants.contains(&2));
    assert!(!dag.roots.contains(&2));

    // a new node wired to close a cycle is rejected without trace
    let mut d = Dag::node(MockStruct::new('D'));
    d.dependencies.push(0);
    d.dependants.push(0);
    assert!(matches!(dag.insert(d), Err(DagError::CycleDetected(_))));
    assert_eq!(dag.nodes.len(), 3);
    assert!(!dag.nodes[0].dependencies.iter().any(|&x| x == 3));

    // a new root is promoted into the root set
    let e = Dag::node(MockStruct::new('E'));
    assert_eq!(dag.insert(e), Ok(3));
    assert!(dag.roots.contains(&3));

    // an edge to an unregistered node is rejected
    let mut f = Dag::node(MockStruct::new('F'));
    f.dependencies.push(9);
    assert_eq!(dag.insert(f), Err(DagError::NodeNotRegistered));
}

#[test]
fn insert_demotes_new_dependants() {
    // inserting a node below a root takes the root away
    let nodes = vec![Dag::node(MockStruct::new('A'))];
    let mut dag = Dag::build(nodes).unwrap();
    assert_eq!(dag.roots, vec![0]);

    let mut b = Dag::node(MockStruct::new('B'));
    b.dependants.push(0);
    assert_eq!(dag.insert(b), Ok(1));
    assert_eq!(dag.roots, vec![1]);
    assert!(dag.nodes[0].dependencies.contains(&1));
}
