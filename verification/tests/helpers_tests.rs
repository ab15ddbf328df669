use std::collections::HashSet;

use dagflow::errors::DagError;
use dagflow::flow::helpers::DefaultResolveable;
use dagflow::flow::helpers::RefCellWrapper;
use dagflow::flow::helpers::Resolveable;

#[test]
fn resolveable_hash_test() {
    let foo = RefCellWrapper::new(1);
    let mut bar = HashSet::new();

    bar.insert(foo);

    assert!(bar.len() == 1);

    bar.remove(&RefCellWrapper::new(1));

    assert!(bar.is_empty());
}

#[test]
fn default_resolveable_tracks_state() {
    let mut task = DefaultResolveable::new(|| Ok::<u32, u32>(5));
    assert!(!task.started());
    assert!(!task.resolved());
    assert_eq!(task.exec(), Ok(5));
    assert!(task.started());
    assert!(task.resolved());
}

#[test]
fn wrapper_forwards_capability() {
    let mut task = RefCellWrapper::new(DefaultResolveable::new(|| Err::<u32, u32>(3)));
    assert!(!task.started());
    assert_eq!(task.exec(), Err(3));
    assert!(task.started());
    assert!(task.resolved());
}

#[test]
fn error_descriptions() {
    assert_eq!(
        DagError::NodeNotRegistered.describe(),
        "edge endpoint is not registered in the graph"
    );
    assert_eq!(
        DagError::CycleDetected(2).describe(),
        "edge set contains a cycle"
    );
    assert_eq!(DagError::NoRoots.describe(), "graph has no roots");
}
