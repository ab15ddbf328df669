use std::collections::HashSet;

use dagflow::errors::DagError;
use dagflow::flow::helpers::DefaultResolveable;
use dagflow::flow::Flow;

#[test]
fn flow_test() {
    let a = Flow::<_, u32, u32>::new_task(DefaultResolveable::new(
        (|| Ok(1)) as fn() -> Result<u32, u32>,
    ));
    let b = Flow::<_, u32, u32>::new_task(DefaultResolveable::new(
        (|| Ok(2)) as fn() -> Result<u32, u32>,
    ));
    let c = Flow::<_, u32, u32>::new_task(DefaultResolveable::new(
        (|| Ok(3)) as fn() -> Result<u32, u32>,
    ));

    let mut nodes = vec![a, b, c];
    Flow::<_, u32, u32>::dep(&mut nodes, 0, 1).unwrap();
    Flow::<_, u32, u32>::dep(&mut nodes, 1, 2).unwrap();
    let mut flow = Flow::<_, u32, u32>::build(nodes).unwrap();

    flow.start();
}

#[test]
fn flow_test_2() {
    let a = Flow::<_, u32, u32>::new_task(DefaultResolveable::new(
        (|| Ok(1)) as fn() -> Result<u32, u32>,
    ));
    let b = Flow::<_, u32, u32>::new_task(DefaultResolveable::new(
        (|| Ok(2)) as fn() -> Result<u32, u32>,
    ));

    let mut nodes = vec![a, b];
    Flow::<_, u32, u32>::dep(&mut nodes, 0, 1).unwrap();
    let flow = Flow::<_, u32, u32>::build(nodes).unwrap();

    assert!(flow.dag.nodes[0].dependencies.contains(&1));
    assert!(flow.dag.nodes[1].dependants.contains(&0));
}

#[test]
fn hash_test() {
    let a = Flow::<_, u32, u32>::new_task(DefaultResolveable::new(
        (|| Ok(1)) as fn() -> Result<u32, u32>,
    ));
    let b = Flow::<_, u32, u32>::new_task(DefaultResolveable::new(
        (|| Ok(2)) as fn() -> Result<u32, u32>,
    ));

    let mut foo = HashSet::new();

    foo.insert(&a);
    foo.insert(&b);
    assert!(foo.len() == 2);

    foo.remove(&a);
    foo.remove(&a);
    assert!(foo.len() == 1)
}

#[test]
fn diamond_runs_in_topological_order() {
    // nodes A,B,C,D with edges B->A, C->B, D->B, D->C: the only valid
    // execution order is A, B, C, D
    let tasks = vec![
        Flow::<_, u32, u32>::new_task(DefaultResolveable::new(
            (|| Ok(0)) as fn() -> Result<u32, u32>,
        )),
        Flow::<_, u32, u32>::new_task(DefaultResolveable::new(
            (|| Ok(1)) as fn() -> Result<u32, u32>,
        )),
        Flow::<_, u32, u32>::new_task(DefaultResolveable::new(
            (|| Ok(2)) as fn() -> Result<u32, u32>,
        )),
        Flow::<_, u32, u32>::new_task(DefaultResolveable::new(
            (|| Ok(3)) as fn() -> Result<u32, u32>,
        )),
    ];
    let mut nodes = tasks;
    Flow::<_, u32, u32>::dep(&mut nodes, 1, 0).unwrap();
    Flow::<_, u32, u32>::dep(&mut nodes, 2, 1).unwrap();
    Flow::<_, u32, u32>::dep(&mut nodes, 3, 1).unwrap();
    Flow::<_, u32, u32>::dep(&mut nodes, 3, 2).unwrap();
    let mut flow = Flow::<_, u32, u32>::build(nodes).unwrap();

    assert_eq!(flow.ready, vec![0]);
    let order = flow.start();
    assert_eq!(order, vec![0, 1, 2, 3]);
    assert!(flow.errors.is_empty());
    assert!(flow.ready.is_empty());
    assert!(flow.dag.present.iter().all(|&p| !p));
}

#[test]
fn failed_task_blocks_dependants() {
    // B fails: its dependants are never enqueued and stay in the graph
    let tasks = vec![
        Flow::<_, u32, u32>::new_task(DefaultResolveable::new(
            (|| Ok(0)) as fn() -> Result<u32, u32>,
        )),
        Flow::<_, u32, u32>::new_task(DefaultResolveable::new(
            (|| Err(42)) as fn() -> Result<u32, u32>,
        )),
        Flow::<_, u32, u32>::new_task(DefaultResolveable::new(
            (|| Ok(2)) as fn() -> Result<u32, u32>,
        )),
    ];
    let mut nodes = tasks;
    Flow::<_, u32, u32>::dep(&mut nodes, 1, 0).unwrap();
    Flow::<_, u32, u32>::dep(&mut nodes, 2, 1).unwrap();
    let mut flow = Flow::<_, u32, u32>::build(nodes).unwrap();

    let order = flow.start();
    assert_eq!(order, vec![0, 1]);
    assert!(flow.ready.is_empty());
    assert_eq!(flow.errors, vec![(1, 42)]);
    assert!(!flow.dag.present[0]);
    assert!(!flow.dag.present[1]);
    assert!(flow.dag.present[2]);
    assert!(flow.dag.nodes[2].dependencies.contains(&1));
}

#[test]
fn unrelated_branch_survives_failure() {
    // two independent chains: a failure in one leaves the other running
    let tasks = vec![
        Flow::<_, u32, u32>::new_task(DefaultResolveable::new(
            (|| Err(7)) as fn() -> Result<u32, u32>,
        )),
        Flow::<_, u32, u32>::new_task(DefaultResolveable::new(
            (|| Ok(1)) as fn() -> Result<u32, u32>,
        )),
        Flow::<_, u32, u32>::new_task(DefaultResolveable::new(
            (|| Ok(2)) as fn() -> Result<u32, u32>,
        )),
    ];
    let mut nodes = tasks;
    Flow::<_, u32, u32>::dep(&mut nodes, 2, 1).unwrap();
    let mut flow = Flow::<_, u32, u32>::build(nodes).unwrap();

    let order = flow.start();
    assert_eq!(order, vec![0, 1, 2]);
    assert_eq!(flow.errors, vec![(0, 7)]);
    assert!(!flow.dag.present[1] && !flow.dag.present[2]);
}

#[test]
fn flow_build_requires_roots() {
    let a = Flow::<_, u32, u32>::new_task(DefaultResolveable::new(
        (|| Ok(1)) as fn() -> Result<u32, u32>,
    ));
    let b = Flow::<_, u32, u32>::new_task(DefaultResolveable::new(
        (|| Ok(2)) as fn() -> Result<u32, u32>,
    ));
    let mut nodes = vec![a, b];
    Flow::<_, u32, u32>::dep(&mut nodes, 0, 1).unwrap();
    Flow::<_, u32, u32>::dep(&mut nodes, 1, 0).unwrap();
    assert!(matches!(
        Flow::<_, u32, u32>::build(nodes),
        Err(DagError::NoRoots)
    ));
}

#[test]
fn flow_dep_rejects_unregistered() {
    let a = Flow::<_, u32, u32>::new_task(DefaultResolveable::new(|| Ok(1)));
    let mut nodes = vec![a];
    assert_eq!(
        Flow::<_, u32, u32>::dep(&mut nodes, 0, 4),
        Err(DagError::NodeNotRegistered)
    );
    assert!(nodes[0].dependencies.is_empty());
}
