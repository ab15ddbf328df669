//! The topological execution engine: a ready-queue scheduler over a
//! validated dependency graph.
//!
//! A `Flow` owns a graph, a FIFO queue of nodes currently eligible to
//! run, and a map from node to failure detail.  `start` drains the
//! queue: it pops the front node, runs its task capability, and on
//! success removes the node from the graph, enqueueing every dependant
//! whose last blocking edge was just removed.  On failure it records
//! the error and retires the node without detaching it, so nodes
//! downstream of a failure keep their blocking edge and never run.

use vstd::prelude::*;

use core::marker::PhantomData;

use crate::cycle::acyclic;
use crate::cycle::edge;
use crate::cycle::lemma_all_blocked_has_cycle;
use crate::cycle::lemma_seq_pigeonhole;
use crate::cycle::on_cycle;
use crate::errors::DagError;
use crate::flow::dag::buildable;
use crate::flow::dag::cand_root;
use crate::flow::dag::has_root_cand;
use crate::flow::dag::Dag;
use crate::flow::dag::node::arena_wf;
use crate::flow::dag::node::deps_adj;
use crate::flow::dag::node::detach_adj;
use crate::flow::dag::node::dnts_adj;
use crate::flow::dag::node::edges_no_dup;
use crate::flow::dag::node::keep_other;
use crate::flow::dag::node::Node;
use crate::flow::helpers::RefCellWrapper;
use crate::flow::helpers::Resolveable;

pub mod dag;
pub mod helpers;

verus! {

/// The ids recorded in an error list.
pub open spec fn err_ids<E>(errors: Seq<(usize, E)>) -> Seq<usize> {
    errors.map_values(|p: (usize, E)| p.0)
}

/// Holds of ids outside `s`: the filter that strips the already
/// completed dependencies from a dependency list.
pub open spec fn outside(s: Seq<usize>) -> spec_fn(usize) -> bool {
    |y: usize| !s.contains(y)
}

/// Holds of ids that did not complete successfully in the given run:
/// they either never executed, or executed and failed.  After `start`,
/// a member's dependency list keeps exactly these.
pub open spec fn not_completed(order: Seq<usize>, errs: Seq<usize>) -> spec_fn(usize) -> bool {
    |y: usize| !(order.contains(y) && !errs.contains(y))
}

/// Holds of the dependants that lose their last blocking edge when a
/// node is detached: their dependency list was non-empty before and is
/// empty after.
pub open spec fn newly_unblocked(deps: Seq<Seq<usize>>, deps2: Seq<Seq<usize>>) -> spec_fn(
    usize,
) -> bool {
    |p: usize| deps[p as int].len() > 0 && deps2[p as int].len() == 0
}

/// The schedule the run loop follows, as a function of the start
/// state.  Pop the front of the ready queue; a failing node is retired
/// without detaching, a succeeding node is detached from its
/// dependants, and the dependants that lose their last blocking edge
/// are enqueued at the back in dependant-list order.  `failed` names
/// the nodes whose task fails when run; `fuel` bounds the pops, and
/// any fuel at least the member count leaves the schedule complete.
pub open spec fn spec_schedule(
    deps: Seq<Seq<usize>>,
    dnts: Seq<Seq<usize>>,
    ready: Seq<usize>,
    failed: Set<usize>,
    fuel: nat,
) -> Seq<usize>
    decreases fuel,
{
    if fuel == 0 || ready.len() == 0 {
        Seq::empty()
    } else {
        let id = ready[0];
        let tail = ready.subrange(1, ready.len() as int);
        if failed.contains(id) {
            seq![id] + spec_schedule(deps, dnts, tail, failed, (fuel - 1) as nat)
        } else {
            let deps2 = detach_adj(deps, dnts[id as int], id);
            let promoted = dnts[id as int].filter(newly_unblocked(deps, deps2));
            seq![id] + spec_schedule(deps2, dnts, tail + promoted, failed, (fuel - 1) as nat)
        }
    }
}

/// The conjunction of two id predicates.
pub open spec fn both(p1: spec_fn(usize) -> bool, p2: spec_fn(usize) -> bool) -> spec_fn(
    usize,
) -> bool {
    |y: usize| p1(y) && p2(y)
}

/// The number of set flags: the scheduler's termination measure.
pub open spec fn count_true(s: Seq<bool>) -> nat
    decreases s.len(),
{
    if s.len() == 0 {
        0
    } else {
        count_true(s.drop_last()) + if s.last() {
            1nat
        } else {
            0nat
        }
    }
}

proof fn lemma_count_true_update(s: Seq<bool>, i: int)
    requires
        0 <= i < s.len(),
        s[i],
    ensures
        count_true(s.update(i, false)) < count_true(s),
    decreases s.len(),
{
    let s2 = s.update(i, false);
    if i == s.len() - 1 {
        assert(s2.drop_last() =~= s.drop_last());
    } else {
        assert(s2.drop_last() =~= s.drop_last().update(i, false));
        lemma_count_true_update(s.drop_last(), i);
    }
}

/// Filters whose predicates agree on every element of the sequence
/// produce the same result.
proof fn lemma_filter_agree(s: Seq<usize>, p1: spec_fn(usize) -> bool, p2: spec_fn(usize) -> bool)
    requires
        forall|i: int| 0 <= i < s.len() ==> p1(#[trigger] s[i]) == p2(s[i]),
    ensures
        s.filter(p1) =~= s.filter(p2),
    decreases s.len(),
{
    reveal(Seq::filter);
    if s.len() > 0 {
        assert(forall|i: int| 0 <= i < s.len() - 1 ==> (#[trigger] s.drop_last()[i]) == s[i]);
        lemma_filter_agree(s.drop_last(), p1, p2);
    }
}

/// Two filters in a row are the filter by the conjunction.
proof fn lemma_filter_compose(s: Seq<usize>, p1: spec_fn(usize) -> bool, p2: spec_fn(usize) -> bool)
    ensures
        s.filter(p1).filter(p2) =~= s.filter(both(p1, p2)),
    decreases s.len(),
{
    reveal(Seq::filter);
    if s.len() > 0 {
        lemma_filter_compose(s.drop_last(), p1, p2);
        if p1(s.last()) {
            Seq::lemma_filter_push(s.drop_last().filter(p1), s.last(), p2);
            assert(s.drop_last().filter(p1).push(s.last()) =~= s.filter(p1));
        }
    }
}

/// Pushing a fresh element preserves freedom from duplicates.
proof fn lemma_push_no_dup(s: Seq<usize>, x: usize)
    requires
        s.no_duplicates(),
        !s.contains(x),
    ensures
        s.push(x).no_duplicates(),
{
    let s2 = s.push(x);
    assert(forall|k: int| 0 <= k < s.len() ==> (#[trigger] s2[k]) == s[k]);
    assert forall|k1: int, k2: int|
        0 <= k1 < s2.len() && 0 <= k2 < s2.len() && k1 != k2 implies s2[k1] != s2[k2] by {
        if k1 < s.len() && k2 < s.len() {
        } else if k1 == s.len() {
            assert(s.contains(s[k2]));
        } else if k2 == s.len() {
            assert(s.contains(s[k1]));
        }
    }
}

/// The scheduler: a validated graph, the FIFO ready queue of node ids
/// currently eligible to run, and the per-node failures captured so
/// far.
pub struct Flow<T, U, E> where T: Resolveable<U, E> {
    /// The dependency graph being drained.
    pub dag: Dag<RefCellWrapper<T>>,
    /// Ids of members with no outstanding dependency, in arrival order.
    pub ready: Vec<usize>,
    /// For each failed node, its id and the failure the task returned.
    pub errors: Vec<(usize, E)>,
    /// Marks the unused result-value parameter of the task capability.
    pub phantom: PhantomData<U>,
}

impl<T, U, E> Flow<T, U, E> where T: Resolveable<U, E> {
    /// Well-formedness: the graph is well formed, the ready queue holds
    /// exactly the roots, once each, and recorded failures name
    /// distinct retired nodes.
    pub open spec fn wf(self) -> bool {
        &&& self.dag.wf()
        &&& self.ready@.no_duplicates()
        &&& forall|k: int|
            0 <= k < self.ready@.len() ==> self.dag.is_root_id((#[trigger] self.ready@[k]) as int)
        &&& forall|x: int|
            0 <= x < self.dag.nodes@.len() && #[trigger] self.dag.is_root_id(x)
                ==> self.ready@.contains(x as usize)
        &&& err_ids(self.errors@).no_duplicates()
        &&& forall|k: int|
            0 <= k < self.errors@.len() ==> (((#[trigger] self.errors@[k]).0) as int)
                < self.dag.nodes@.len() && !self.dag.is_present(self.errors@[k].0 as int)
    }

    /// A fresh task node around the given payload, with no edges.
    pub fn new_task(value: T) -> (r: Node<RefCellWrapper<T>>)
        ensures
            r.value.c == value,
            r.dependencies@ =~= Seq::<usize>::empty(),
            r.dependants@ =~= Seq::<usize>::empty(),
    {
        Node::new(RefCellWrapper::new(value))
    }

    /// Records "`to` depends on `from`" in the arena, both halves
    /// atomically; rejected with `NodeNotRegistered`, changing nothing,
    /// when either id is not an arena slot.
    pub fn dep(nodes: &mut Vec<Node<RefCellWrapper<T>>>, to: usize, from: usize) -> (r: Result<
        (),
        DagError,
    >)
        ensures
            r is Ok <==> (to < old(nodes)@.len() && from < old(nodes)@.len()),
            r is Err ==> final(nodes)@ == old(nodes)@ && r == Err::<(), DagError>(
                DagError::NodeNotRegistered,
            ),
            r is Ok ==> ({
                let ns0 = old(nodes)@;
                let ns2 = final(nodes)@;
                &&& ns2.len() == ns0.len()
                &&& forall|i: int| 0 <= i < ns0.len() ==> (#[trigger] ns2[i]).value == ns0[i].value
                &&& forall|i: int|
                    0 <= i < ns0.len() && i != to ==> (#[trigger] ns2[i]).dependencies@
                        == ns0[i].dependencies@
                &&& forall|i: int|
                    0 <= i < ns0.len() && i != from ==> (#[trigger] ns2[i]).dependants@
                        == ns0[i].dependants@
                &&& ns2[to as int].dependencies@ == (if ns0[to as int].dependencies@.contains(from) {
                    ns0[to as int].dependencies@
                } else {
                    ns0[to as int].dependencies@.push(from)
                })
                &&& ns2[from as int].dependants@ == (if ns0[from as int].dependants@.contains(to) {
                    ns0[from as int].dependants@
                } else {
                    ns0[from as int].dependants@.push(to)
                })
                &&& (arena_wf(ns0) ==> arena_wf(ns2))
            }),
    {
        Dag::dep(nodes, to, from)
    }

    /// Builds a scheduler over the given task arena: the ready queue is
    /// initialized with the dependency-free nodes in arena order, and
    /// the graph is collected and validated as by `Dag::build`.
    #[verifier::loop_isolation(false)]
    pub fn build(tasks: Vec<Node<RefCellWrapper<T>>>) -> (r: Result<Flow<T, U, E>, DagError>)
        ensures
            r is Ok <==> buildable(tasks@),
            r matches Err(e) ==> (e == DagError::NodeNotRegistered <==> !arena_wf(tasks@)),
            r matches Err(e) ==> (e == DagError::NoRoots <==> (arena_wf(tasks@) && !has_root_cand(
                tasks@,
            ))),
            r matches Ok(f) ==> {
                &&& f.wf()
                &&& f.dag.nodes@ == tasks@
                &&& f.dag.present@.len() == tasks@.len()
                &&& (forall|i: int| 0 <= i < tasks@.len() ==> f.dag.is_present(i))
                &&& f.dag.closed()
                &&& f.errors@ =~= Seq::<(usize, E)>::empty()
                &&& f.ready@.no_duplicates()
                &&& (forall|k1: int, k2: int|
                    0 <= k1 < k2 < f.ready@.len() ==> (#[trigger] f.ready@[k1]) < (
                    #[trigger] f.ready@[k2]))
                &&& (forall|k: int|
                    0 <= k < f.ready@.len() ==> cand_root(tasks@, (#[trigger] f.ready@[k]) as int))
                &&& (forall|x: int|
                    #[trigger] cand_root(tasks@, x) ==> f.ready@.contains(x as usize))
            },
    {
        let ghost ns = tasks@;
        let n = tasks.len();
        let mut ready: Vec<usize> = Vec::new();
        let mut i: usize = 0;
        while i < n
            invariant
                i <= n,
                forall|k1: int, k2: int|
                    0 <= k1 < k2 < ready@.len() ==> (#[trigger] ready@[k1]) < (
                    #[trigger] ready@[k2]),
                forall|k: int|
                    0 <= k < ready@.len() ==> cand_root(ns, (#[trigger] ready@[k]) as int)
                        && ready@[k] < i,
                forall|x: int| 0 <= x < i && #[trigger] cand_root(ns, x) ==> ready@.contains(
                    x as usize,
                ),
            decreases n - i,
        {
            proof {
                broadcast use vstd::seq_lib::lemma_seq_contains_after_push;

            }
            if tasks[i].dependencies.len() == 0 {
                ready.push(i);
            } else {
                proof {
                    assert(!cand_root(ns, i as int));
                }
            }
            i += 1;
        }
        proof {
            assert(ready@.no_duplicates()) by {
                assert forall|k1: int, k2: int|
                    0 <= k1 < ready@.len() && 0 <= k2 < ready@.len() && k1 != k2 implies ready@[k1]
                    != ready@[k2] by {
                    if k1 < k2 {
                    } else {
                        assert(ready@[k2] < ready@[k1]);
                    }
                }
            }
        }
        match Dag::build(tasks) {
            Ok(d) => {
                let f = Flow { dag: d, ready, errors: Vec::new(), phantom: PhantomData };
                proof {
                    assert forall|k: int|
                        0 <= k < f.ready@.len() implies f.dag.is_root_id(
                        (#[trigger] f.ready@[k]) as int,
                    ) by {
                        assert(cand_root(ns, f.ready@[k] as int));
                        assert(f.dag.is_present(f.ready@[k] as int));
                    }
                    assert forall|x: int|
                        0 <= x < f.dag.nodes@.len() && #[trigger] f.dag.is_root_id(
                            x,
                        ) implies f.ready@.contains(x as usize) by {
                        assert(cand_root(ns, x));
                    }
                    assert(err_ids(f.errors@) =~= Seq::<usize>::empty());
                }
                Ok(f)
            },
            Err(e) => Err(e),
        }
    }

    /// Runs the graph to completion and returns the ids of the executed
    /// nodes in execution order.  Each node runs only after all of its
    /// dependencies have run and succeeded.  The error map ends up
    /// naming exactly the executed nodes whose task failed, and a
    /// failed node's dependants, keeping their blocking edge, stay in
    /// the graph and never run.  On an all-succeeding acyclic graph
    /// every member runs exactly once, and on a fully registered graph
    /// the order is exactly the FIFO schedule of the start state
    /// (`spec_schedule`): deterministic and reproducible given the
    /// build-time order and each task's outcome.
    #[verifier::loop_isolation(false)]
    #[verifier::rlimit(100)]
    pub fn start(&mut self) -> (order: Vec<usize>)
        requires
            old(self).wf(),
        ensures
            final(self).wf(),
            final(self).ready@.len() == 0,
            order@.no_duplicates(),
            forall|k: int|
                0 <= k < order@.len() ==> ((#[trigger] order@[k]) as int) < old(
                    self,
                ).dag.nodes@.len() && old(self).dag.is_present(order@[k] as int),
            forall|x: int|
                0 <= x < old(self).dag.nodes@.len() ==> ((#[trigger] final(self).dag.is_present(x))
                    <==> (old(self).dag.is_present(x) && !order@.contains(x as usize))),
            forall|i: int|
                0 <= i < old(self).dag.nodes@.len() ==> (#[trigger] final(self).dag.nodes@[i]).dependants@
                    == old(self).dag.nodes@[i].dependants@,
            forall|i: int|
                0 <= i < old(self).dag.nodes@.len() && final(self).dag.is_present(i) ==> (
                #[trigger] final(self).dag.nodes@[i]).dependencies@ =~= old(
                    self,
                ).dag.nodes@[i].dependencies@.filter(
                    not_completed(order@, err_ids(final(self).errors@)),
                ),
            forall|k: int|
                0 <= k < order@.len() ==> (err_ids(final(self).errors@).contains(
                    #[trigger] order@[k],
                ) <==> !final(self).dag.nodes@[(order@[k]) as int].value.spec_succeeded()),
            forall|k: int, dj: int|
                0 <= k < order@.len() && 0 <= dj < old(self).dag.nodes@[(order@[k]) as int].dependencies@.len()
                    ==> order@.subrange(0, k).contains(
                    #[trigger] old(self).dag.nodes@[(order@[k]) as int].dependencies@[dj],
                ) && !err_ids(final(self).errors@).contains(
                    old(self).dag.nodes@[(order@[k]) as int].dependencies@[dj],
                ),
            old(self).errors@.is_prefix_of(final(self).errors@),
            forall|k: int|
                old(self).errors@.len() <= k < final(self).errors@.len() ==> order@.contains(
                    (#[trigger] final(self).errors@[k]).0,
                ),
            (final(self).errors@ == old(self).errors@ && old(self).dag.closed() && acyclic(
                deps_adj(old(self).dag.nodes@),
            )) ==> (forall|x: int|
                0 <= x < old(self).dag.nodes@.len() && old(self).dag.is_present(x)
                    ==> order@.contains(x as usize)),
            (forall|i: int| 0 <= i < old(self).dag.nodes@.len() ==> old(self).dag.is_present(i))
                ==> (forall|fails: Set<usize>|
                (forall|k: int|
                    0 <= k < order@.len() ==> (fails.contains(#[trigger] order@[k]) <==> err_ids(
                        final(self).errors@,
                    ).contains(order@[k]))) ==> #[trigger] spec_schedule(
                    deps_adj(old(self).dag.nodes@),
                    dnts_adj(old(self).dag.nodes@),
                    old(self).ready@,
                    fails,
                    old(self).dag.nodes@.len() as nat,
                ) =~= order@),
    {
        broadcast use vstd::seq_lib::lemma_seq_contains_after_push;
        broadcast use vstd::seq_lib::group_filter_ensures;

        let ghost g0 = self.dag;
        let ghost ns0 = self.dag.nodes@;
        let ghost e0 = self.errors@;
        let ghost r0 = self.ready@;
        let n = self.dag.nodes.len();
        let ghost allp = (forall|i: int| 0 <= i < n ==> g0.is_present(i));
        let mut order: Vec<usize> = Vec::new();
        let ghost mut succ: Seq<usize> = Seq::empty();
        proof {
            if allp {
                assert forall|fails: Set<usize>|
                    (forall|k: int|
                        0 <= k < order@.len() ==> (fails.contains(#[trigger] order@[k])
                            <==> err_ids(self.errors@).contains(order@[k]))) implies #[trigger] spec_schedule(
                    deps_adj(ns0),
                    dnts_adj(ns0),
                    r0,
                    fails,
                    n as nat,
                ) =~= order@ + spec_schedule(
                    deps_adj(self.dag.nodes@),
                    dnts_adj(ns0),
                    self.ready@,
                    fails,
                    (n - order@.len()) as nat,
                ) by {
                    assert(order@ + spec_schedule(
                        deps_adj(self.dag.nodes@),
                        dnts_adj(ns0),
                        self.ready@,
                        fails,
                        (n - order@.len()) as nat,
                    ) =~= spec_schedule(deps_adj(ns0), dnts_adj(ns0), r0, fails, n as nat));
                }
            }
            assert forall|i: int|
                0 <= i < n && self.dag.is_present(i) implies (#[trigger] self.dag.nodes@[i]).dependencies@
                =~= ns0[i].dependencies@.filter(outside(succ)) by {
                lemma_filter_agree(
                    ns0[i].dependencies@,
                    outside(succ),
                    |y: usize| true,
                );
                lemma_filter_all_true(ns0[i].dependencies@);
            }
        }
        while self.ready.len() > 0
            invariant
                self.wf(),
                self.dag.nodes@.len() == n,
                self.dag.present@.len() == n,
                forall|i: int|
                    0 <= i < n ==> (#[trigger] self.dag.nodes@[i]).dependants@
                        == ns0[i].dependants@,
                forall|i: int|
                    0 <= i < n && self.dag.is_present(i)
                        ==> (#[trigger] self.dag.nodes@[i]).dependencies@
                        =~= ns0[i].dependencies@.filter(outside(succ)),
                forall|x: int|
                    0 <= x < n ==> ((#[trigger] self.dag.is_present(x)) <==> (g0.is_present(x)
                        && !order@.contains(x as usize))),
                order@.no_duplicates(),
                order@.len() <= n,
                forall|k: int|
                    0 <= k < order@.len() ==> ((#[trigger] order@[k]) as int) < n && g0.is_present(
                        order@[k] as int,
                    ),
                forall|k: int|
                    0 <= k < order@.len() ==> (err_ids(self.errors@).contains(#[trigger] order@[k])
                        <==> !self.dag.nodes@[(order@[k]) as int].value.spec_succeeded()),
                allp ==> (forall|i: int|
                    0 <= i < n && !self.dag.is_present(i)
                        ==> (#[trigger] self.dag.nodes@[i]).dependencies@.len() == 0),
                allp ==> (forall|fails: Set<usize>|
                    (forall|k: int|
                        0 <= k < order@.len() ==> (fails.contains(#[trigger] order@[k])
                            <==> err_ids(self.errors@).contains(order@[k])))
                        ==> #[trigger] spec_schedule(
                        deps_adj(ns0),
                        dnts_adj(ns0),
                        r0,
                        fails,
                        n as nat,
                    ) =~= order@ + spec_schedule(
                        deps_adj(self.dag.nodes@),
                        dnts_adj(ns0),
                        self.ready@,
                        fails,
                        (n - order@.len()) as nat,
                    )),
                succ.no_duplicates(),
                forall|y: usize| #[trigger]
                    succ.contains(y) ==> order@.contains(y) && !err_ids(self.errors@).contains(y),
                forall|k: int|
                    0 <= k < order@.len() ==> succ.contains(#[trigger] order@[k]) || err_ids(
                        self.errors@,
                    ).contains(order@[k]),
                forall|k: int, dj: int|
                    0 <= k < order@.len() && 0 <= dj < ns0[(order@[k]) as int].dependencies@.len()
                        ==> order@.subrange(0, k).contains(
                        #[trigger] ns0[(order@[k]) as int].dependencies@[dj],
                    ) && succ.contains(ns0[(order@[k]) as int].dependencies@[dj]),
                e0.is_prefix_of(self.errors@),
                forall|k: int|
                    e0.len() <= k < self.errors@.len() ==> order@.contains(
                        (#[trigger] self.errors@[k]).0,
                    ),
                (self.errors@ == e0 && g0.closed()) ==> self.dag.closed(),
            decreases count_true(self.dag.present@),
        {
            let id = self.ready[0];
            let ghost g1 = self.dag;
            let ghost ready1 = self.ready@;
            let ghost err1 = self.errors@;
            let ghost succ_pre = succ;
            proof {
                assert(g1.is_root_id(id as int));
                assert(!order@.contains(id));
                assert(!succ.contains(id));
            }
            self.ready.remove(0);
            proof {
                assert(self.ready@ =~= ready1.subrange(1, ready1.len() as int));
                assert(forall|k: int|
                    0 <= k < self.ready@.len() ==> (#[trigger] self.ready@[k]) == ready1[k + 1]);
                assert(self.ready@.no_duplicates()) by {
                    assert forall|k1: int, k2: int|
                        0 <= k1 < self.ready@.len() && 0 <= k2 < self.ready@.len() && k1
                            != k2 implies self.ready@[k1] != self.ready@[k2] by {
                        assert(ready1[k1 + 1] != ready1[k2 + 1]);
                    }
                }
                assert(!self.ready@.contains(id)) by {
                    if self.ready@.contains(id) {
                        let k = choose|k: int|
                            0 <= k < self.ready@.len() && self.ready@[k] == id;
                        assert(ready1[k + 1] == id && ready1[0] == id);
                    }
                }
            }
            let ghost rtail = self.ready@;
            let ghost hdeps = deps_adj(g1.nodes@);
            let ghost dn = self.dag.nodes@[id as int].dependants@;
            let res = self.dag.nodes[id].value.exec();
            let ghost g1x = self.dag;
            proof {
                // the task call changed at most the payload value, and its
                // success state records the returned variant
                assert(g1x.nodes@[id as int].value.spec_succeeded() <==> res is Ok);
                assert(forall|i: int|
                    0 <= i < n && i != id as int ==> (#[trigger] g1x.nodes@[i]).value
                        == g1.nodes@[i].value);
                assert(g1x.present@ == g1.present@ && g1x.roots@ == g1.roots@);
                assert(forall|i: int|
                    0 <= i < n ==> (#[trigger] g1x.nodes@[i]).dependencies@
                        == g1.nodes@[i].dependencies@ && g1x.nodes@[i].dependants@
                        == g1.nodes@[i].dependants@);
                assert(deps_adj(g1x.nodes@) =~~= deps_adj(g1.nodes@));
                assert(dnts_adj(g1x.nodes@) =~~= dnts_adj(g1.nodes@));
                assert(forall|x: int|
                    0 <= x < n ==> ((#[trigger] g1x.is_root_id(x)) <==> g1.is_root_id(x)));
                assert(g1x.wf()) by {
                    assert(edges_no_dup(g1x.nodes@)) by {
                        assert forall|i: int|
                            0 <= i < n implies (#[trigger] g1x.nodes@[i].dependencies@)
                            .no_duplicates() && g1x.nodes@[i].dependants@.no_duplicates() by {
                            assert(g1.nodes@[i].dependencies@.no_duplicates());
                            assert(g1.nodes@[i].dependants@.no_duplicates());
                        }
                    }
                    assert(g1x.paired()) by {
                        assert forall|a: usize, b: usize|
                            g1x.is_present(a as int) && g1x.is_present(b as int) implies ((
                        #[trigger] edge(deps_adj(g1x.nodes@), a, b)) <==> (#[trigger] edge(
                            dnts_adj(g1x.nodes@),
                            b,
                            a,
                        ))) by {
                            assert(g1.is_present(a as int) && g1.is_present(b as int));
                            assert(edge(deps_adj(g1.nodes@), a, b) <==> edge(
                                dnts_adj(g1.nodes@),
                                b,
                                a,
                            ));
                        }
                    }
                    assert forall|k: int|
                        0 <= k < g1x.roots@.len() implies g1x.is_root_id(
                        (#[trigger] g1x.roots@[k]) as int,
                    ) by {
                        assert(g1.is_root_id(g1.roots@[k] as int));
                    }
                    assert forall|x: int|
                        0 <= x < g1x.nodes@.len() && #[trigger] g1x.is_root_id(
                            x,
                        ) implies g1x.roots@.contains(x as usize) by {
                        assert(g1.is_root_id(x));
                    }
                }
            }
            match res {
                Ok(_value) => {
                    proof {
                        assert(self.dag.nodes@[id as int].dependants@ == dn);
                    }
                    self.dag.remove(id);
                    let ghost g2 = self.dag;
                    let ghost succ2 = succ.push(id);
                    proof {
                        succ = succ2;
                    }
                    let m = self.dag.nodes[id].dependants.len();
                    let mut j: usize = 0;
                    proof {
                        assert(m == dn.len());
                        assert(dn.no_duplicates());
                        // dependency lists relative to the run's start
                        assert forall|i: int|
                            0 <= i < n && g2.is_present(i) implies (#[trigger] g2.nodes@[i]).dependencies@
                            =~= ns0[i].dependencies@.filter(outside(succ2)) by {
                            assert(g1x.is_present(i));
                            assert(g1x.nodes@[i].dependencies@ =~= ns0[i].dependencies@.filter(
                                outside(succ_pre),
                            ));
                            assert(g2.nodes@[i].dependencies@ == detach_adj(
                                deps_adj(g1x.nodes@),
                                dn,
                                id,
                            )[i]);
                            if dn.contains(i as usize) {
                                assert(g2.nodes@[i].dependencies@ == g1x.nodes@[
                                    i
                                ].dependencies@.filter(keep_other(id)));
                                lemma_filter_compose(
                                    ns0[i].dependencies@,
                                    outside(succ_pre),
                                    keep_other(id),
                                );
                                assert(g1x.nodes@[i].dependencies@.filter(keep_other(id)) =~= ns0[
                                    i
                                ].dependencies@.filter(both(outside(succ_pre), keep_other(id))));
                                lemma_filter_agree(
                                    ns0[i].dependencies@,
                                    both(outside(succ_pre), keep_other(id)),
                                    outside(succ2),
                                );
                            } else {
                                assert(g2.nodes@[i].dependencies@ == g1x.nodes@[i].dependencies@);
                                // id is not among i's dependencies, since the
                                // matched half-edge would make i a dependant
                                assert(!ns0[i].dependencies@.contains(id)) by {
                                    if ns0[i].dependencies@.contains(id) {
                                        assert(outside(succ_pre)(id));
                                        let k = choose|k: int|
                                            0 <= k < ns0[i].dependencies@.len() && ns0[
                                                i
                                            ].dependencies@[k] == id;
                                        Seq::lemma_filter_contains(
                                            ns0[i].dependencies@,
                                            outside(succ_pre),
                                            k,
                                        );
                                        assert(g1x.nodes@[i].dependencies@.contains(id));
                                        assert(edge(deps_adj(g1x.nodes@), i as usize, id));
                                        assert(g1x.is_present(id as int));
                                        assert(edge(dnts_adj(g1x.nodes@), id, i as usize));
                                        assert(dn.contains(i as usize));
                                    }
                                }
                                assert forall|k: int|
                                    0 <= k < ns0[i].dependencies@.len() implies outside(succ_pre)(
                                    #[trigger] ns0[i].dependencies@[k],
                                ) == outside(succ2)(ns0[i].dependencies@[k]) by {
                                    assert(ns0[i].dependencies@[k] != id);
                                }
                                lemma_filter_agree(
                                    ns0[i].dependencies@,
                                    outside(succ_pre),
                                    outside(succ2),
                                );
                            }
                        }
                        lemma_count_true_update(g1.present@, id as int);
                        if allp {
                            let pred = newly_unblocked(hdeps, deps_adj(g2.nodes@));
                            assert(dn.subrange(0, 0).filter(pred).len() == 0);
                            assert(self.ready@ =~= rtail + dn.subrange(0, 0).filter(pred));
                        }
                        // the shortened queue holds exactly the old roots but id
                        assert forall|k: int|
                            0 <= k < self.ready@.len() implies (g1.is_root_id(
                            (#[trigger] self.ready@[k]) as int,
                        ) && self.ready@[k] != id) by {
                            assert(self.ready@[k] == ready1[k + 1]);
                            assert(g1.is_root_id(ready1[k + 1] as int));
                            assert(ready1[k + 1] != ready1[0]);
                        }
                        // a root other than id keeps an empty dependency list
                        assert forall|x: int|
                            0 <= x < n && #[trigger] g1.is_root_id(x) && x != id
                                as int implies g2.is_root_id(x) by {
                            assert(g2.is_present(x));
                            assert(g1.nodes@[x].dependencies@ =~= ns0[x].dependencies@.filter(
                                outside(succ_pre),
                            ));
                            assert(g1.nodes@[x].dependencies@.len() == 0);
                            let d2 = g2.nodes@[x].dependencies@;
                            assert(d2 =~= ns0[x].dependencies@.filter(outside(succ2)));
                            assert(d2.len() == 0) by {
                                if d2.len() > 0 {
                                    let z = d2[0];
                                    assert(d2.contains(z));
                                    Seq::lemma_filter_contains_rev(
                                        ns0[x].dependencies@,
                                        outside(succ2),
                                        z,
                                    );
                                    assert(outside(succ2)(z));
                                    assert(outside(succ_pre)(z)) by {
                                        if succ_pre.contains(z) {
                                            assert(succ2.contains(z));
                                        }
                                    }
                                    let kz = choose|kz: int|
                                        0 <= kz < ns0[x].dependencies@.len() && ns0[
                                            x
                                        ].dependencies@[kz] == z;
                                    Seq::lemma_filter_contains(
                                        ns0[x].dependencies@,
                                        outside(succ_pre),
                                        kz,
                                    );
                                    assert(g1.nodes@[x].dependencies@.contains(z));
                                }
                            }
                        }
                        assert forall|k: int|
                            0 <= k < self.ready@.len() implies g2.is_root_id(
                            (#[trigger] self.ready@[k]) as int,
                        ) by {
                            let x = self.ready@[k];
                            assert(g1.is_root_id(x as int) && x != id);
                        }
                        assert forall|x: int|
                            0 <= x < n && #[trigger] g2.is_root_id(x) implies (self.ready@.contains(
                                x as usize,
                            ) || dn.subrange(0, m as int).contains(x as usize)) by {
                            if g1.is_root_id(x) {
                                assert(x != id as int);
                                assert(ready1.contains(x as usize));
                                let k = choose|k: int|
                                    0 <= k < ready1.len() && ready1[k] == x as usize;
                                assert(k != 0);
                                assert(self.ready@[k - 1] == x as usize);
                                assert(self.ready@.contains(x as usize));
                            } else {
                                // x gained root status by losing its edge to id
                                assert(g2.is_present(x));
                                assert(g1.is_present(x));
                                assert(g1x.nodes@[x].dependencies@.len() > 0);
                                if !dn.contains(x as usize) {
                                    assert(g2.nodes@[x].dependencies@ == detach_adj(
                                        deps_adj(g1x.nodes@),
                                        dn,
                                        id,
                                    )[x]);
                                    assert(g2.nodes@[x].dependencies@ == g1x.nodes@[
                                        x
                                    ].dependencies@);
                                    assert(false);
                                }
                                assert(dn.subrange(0, m as int) =~= dn);
                            }
                        }
                    }
                    while j < m
                        invariant
                            j <= m,
                            self.dag == g2,
                            self.errors@ == err1,
                            m == dn.len(),
                            allp ==> self.ready@ =~= rtail + dn.subrange(0, j as int).filter(
                                newly_unblocked(hdeps, deps_adj(g2.nodes@)),
                            ),
                            self.ready@.no_duplicates(),
                            forall|k: int|
                                0 <= k < self.ready@.len() ==> g2.is_root_id(
                                    (#[trigger] self.ready@[k]) as int,
                                ),
                            forall|k: int|
                                0 <= k < self.ready@.len() ==> ((g1.is_root_id(
                                    (#[trigger] self.ready@[k]) as int,
                                ) && self.ready@[k] != id) || dn.subrange(0, j as int).contains(
                                    self.ready@[k],
                                )),
                            forall|x: int|
                                0 <= x < n && #[trigger] g2.is_root_id(x) ==> (self.ready@.contains(
                                    x as usize,
                                ) || dn.subrange(j as int, m as int).contains(x as usize)),
                        decreases m - j,
                    {
                        let p = self.dag.nodes[id].dependants[j];
                        proof {
                            assert(dn[j as int] == p);
                            assert(dnts_adj(g2.nodes@)[id as int][j as int] == p);
                            assert(p < n);
                            assert(dn.subrange(0, j + 1) == dn.subrange(0, j as int).push(p));
                            assert(dn.subrange(j as int, m as int) == seq![p] + dn.subrange(
                                j + 1,
                                m as int,
                            ));
                        }
                        if self.dag.present[p] {
                            if self.dag.nodes[p].dependencies.len() == 0 {
                                proof {
                                    assert(g2.is_root_id(p as int));
                                    // p was blocked on id before the removal
                                    assert(g1.is_present(p as int));
                                    assert(edge(dnts_adj(g1x.nodes@), id, p));
                                    assert(edge(deps_adj(g1x.nodes@), p as int as usize, id));
                                    assert(g1.nodes@[p as int].dependencies@.contains(id));
                                    assert(!g1.is_root_id(p as int));
                                    assert(!self.ready@.contains(p)) by {
                                        if self.ready@.contains(p) {
                                            let k = choose|k: int|
                                                0 <= k < self.ready@.len() && self.ready@[k] == p;
                                            if g1.is_root_id(p as int) && self.ready@[k] != id {
                                            } else if dn.subrange(0, j as int).contains(p) {
                                                let kk = choose|kk: int|
                                                    0 <= kk < j && dn.subrange(0, j as int)[kk]
                                                        == p;
                                                assert(dn[kk] == dn[j as int]);
                                            }
                                        }
                                    }
                                }
                                let ghost rpre = self.ready@;
                                self.ready.push(p);
                                proof {
                                    if allp {
                                        let pred = newly_unblocked(hdeps, deps_adj(g2.nodes@));
                                        assert(hdeps[p as int].len() > 0) by {
                                            assert(g1.nodes@[p as int].dependencies@.contains(id));
                                        }
                                        assert(deps_adj(g2.nodes@)[p as int].len() == 0);
                                        assert(pred(p));
                                        Seq::lemma_filter_push(dn.subrange(0, j as int), p, pred);
                                        assert(self.ready@ =~= rtail + dn.subrange(0, j + 1).filter(
                                            pred,
                                        ));
                                    }
                                    assert(forall|k: int|
                                        0 <= k < rpre.len() ==> (#[trigger] self.ready@[k])
                                            == rpre[k]);
                                    assert(self.ready@.no_duplicates()) by {
                                        assert forall|k1: int, k2: int|
                                            0 <= k1 < self.ready@.len() && 0 <= k2
                                                < self.ready@.len() && k1 != k2 implies self
                                            .ready@[k1] != self.ready@[k2] by {
                                            if k1 < rpre.len() && k2 < rpre.len() {
                                            } else if k1 == rpre.len() {
                                                assert(rpre.contains(rpre[k2]));
                                            } else if k2 == rpre.len() {
                                                assert(rpre.contains(rpre[k1]));
                                            }
                                        }
                                    }
                                    assert forall|x: int|
                                        0 <= x < n && #[trigger] g2.is_root_id(x) implies (self
                                        .ready@.contains(x as usize) || dn.subrange(
                                        j + 1,
                                        m as int,
                                    ).contains(x as usize)) by {
                                        if dn.subrange(j as int, m as int).contains(x as usize) {
                                            if x as usize == p {
                                                assert(self.ready@.contains(p));
                                            } else {
                                                let kk = choose|kk: int|
                                                    j <= kk < m && dn[kk] == x as usize;
                                                assert(kk != j);
                                                assert(dn.subrange(j + 1, m as int)[kk - j - 1]
                                                    == x as usize);
                                            }
                                        } else {
                                            assert(rpre.contains(x as usize));
                                        }
                                    }
                                }
                            } else {
                                proof {
                                    if allp {
                                        let pred = newly_unblocked(hdeps, deps_adj(g2.nodes@));
                                        assert(deps_adj(g2.nodes@)[p as int].len() > 0);
                                        assert(!pred(p));
                                        Seq::lemma_filter_push(dn.subrange(0, j as int), p, pred);
                                        assert(self.ready@ =~= rtail + dn.subrange(0, j + 1).filter(
                                            pred,
                                        ));
                                    }
                                    assert forall|x: int|
                                        0 <= x < n && #[trigger] g2.is_root_id(x) implies (self
                                        .ready@.contains(x as usize) || dn.subrange(
                                        j + 1,
                                        m as int,
                                    ).contains(x as usize)) by {
                                        if dn.subrange(j as int, m as int).contains(x as usize)
                                            && x as usize != p {
                                            let kk = choose|kk: int|
                                                j <= kk < m && dn[kk] == x as usize;
                                            assert(kk != j);
                                            assert(dn.subrange(j + 1, m as int)[kk - j - 1]
                                                == x as usize);
                                        }
                                    }
                                }
                            }
                        } else {
                            proof {
                                if allp {
                                    let pred = newly_unblocked(hdeps, deps_adj(g2.nodes@));
                                    assert(hdeps[p as int].len() == 0) by {
                                        if p == id {
                                            assert(g1.is_root_id(id as int));
                                        } else {
                                            assert(!g1.is_present(p as int));
                                        }
                                    }
                                    assert(!pred(p));
                                    Seq::lemma_filter_push(dn.subrange(0, j as int), p, pred);
                                    assert(self.ready@ =~= rtail + dn.subrange(0, j + 1).filter(
                                        pred,
                                    ));
                                }
                                assert forall|x: int|
                                    0 <= x < n && #[trigger] g2.is_root_id(x) implies (self
                                    .ready@.contains(x as usize) || dn.subrange(
                                    j + 1,
                                    m as int,
                                ).contains(x as usize)) by {
                                    if dn.subrange(j as int, m as int).contains(x as usize)
                                        && x as usize != p {
                                        let kk = choose|kk: int|
                                            j <= kk < m && dn[kk] == x as usize;
                                        assert(kk != j);
                                        assert(dn.subrange(j + 1, m as int)[kk - j - 1]
                                            == x as usize);
                                    }
                                }
                            }
                        }
                        j += 1;
                    }
                    proof {
                        assert(dn.subrange(m as int, m as int).len() == 0);
                        assert(dn.subrange(0, m as int) =~= dn);
                        assert(self.dag == g2);
                        assert(forall|i: int|
                            0 <= i < n ==> (#[trigger] self.dag.nodes@[i]).value == g1x.nodes@[
                            i
                        ].value);
                        assert(self.dag.nodes@[id as int].value.spec_succeeded());
                        assert forall|i: int|
                            0 <= i < n implies (#[trigger] self.dag.nodes@[i]).dependants@ == ns0[
                            i
                        ].dependants@ by {
                            assert(g2.nodes@[i].dependants@ == g1x.nodes@[i].dependants@);
                            assert(g1x.nodes@[i].dependants@ == g1.nodes@[i].dependants@);
                        }
                        assert(self.errors@ == err1);
                        assert forall|k: int|
                            0 <= k < self.errors@.len() implies (((#[trigger] self.errors@[k]).0)
                                as int) < n && !self.dag.is_present(self.errors@[k].0 as int) by {
                            assert(((err1[k]).0 as int) < n);
                            assert(!g1.is_present(err1[k].0 as int));
                            assert(err1[k].0 != id);
                            assert(self.dag.present@[err1[k].0 as int] == g1.present@[err1[k].0 as int]);
                        }
                    }
                },
                Err(e) => {
                    self.dag.retire(id);
                    self.errors.push((id, e));
                    proof {
                        assert(self.dag.nodes@ == g1x.nodes@);
                        assert(!self.dag.nodes@[id as int].value.spec_succeeded());
                        assert(self.errors@.drop_last() =~= err1);
                        assert(forall|k: int|
                            0 <= k < err1.len() ==> (#[trigger] self.errors@[k]) == err1[k]);
                        assert(err_ids(self.errors@) =~= err_ids(err1).push(id));
                        assert(err_ids(self.errors@).no_duplicates()) by {
                            let s = err_ids(self.errors@);
                            assert forall|k1: int, k2: int|
                                0 <= k1 < s.len() && 0 <= k2 < s.len() && k1 != k2 implies s[k1]
                                != s[k2] by {
                                if k1 < s.len() - 1 && k2 < s.len() - 1 {
                                    assert(err_ids(err1)[k1] != err_ids(err1)[k2]);
                                } else if k1 == s.len() - 1 && k2 < s.len() - 1 {
                                    assert(!g1.is_present(err1[k2].0 as int));
                                } else if k2 == s.len() - 1 && k1 < s.len() - 1 {
                                    assert(!g1.is_present(err1[k1].0 as int));
                                }
                            }
                        }
                        assert(self.errors@.len() > e0.len());
                        // the ready queue minus the front is exactly the roots
                        assert forall|x: int|
                            0 <= x < n && #[trigger] self.dag.is_root_id(x) implies self
                            .ready@.contains(x as usize) by {
                            assert(g1.is_root_id(x));
                            assert(ready1.contains(x as usize));
                            let k = choose|k: int|
                                0 <= k < ready1.len() && ready1[k] == x as usize;
                            assert(x as usize != id);
                            assert(k != 0);
                            assert(self.ready@[k - 1] == x as usize);
                        }
                        assert forall|k: int|
                            0 <= k < self.ready@.len() implies self.dag.is_root_id(
                            (#[trigger] self.ready@[k]) as int,
                        ) by {
                            let x = self.ready@[k];
                            assert(x == ready1[k + 1]);
                            assert(g1.is_root_id(x as int));
                            assert(x != ready1[0]);
                            assert(self.dag.is_present(x as int));
                        }
                        assert(forall|i: int|
                            0 <= i < n ==> (#[trigger] self.dag.nodes@[i]).dependants@ == g1.nodes@[
                            i
                        ].dependants@);
                        assert forall|i: int|
                            0 <= i < n && self.dag.is_present(i) implies (#[trigger] self.dag.nodes@[i]).dependencies@
                            =~= ns0[i].dependencies@.filter(outside(succ)) by {
                            assert(g1.is_present(i));
                            assert(self.dag.nodes@[i].dependencies@ == g1x.nodes@[
                                i
                            ].dependencies@);
                        }
                        lemma_count_true_update(g1.present@, id as int);
                    }
                },
            }
            let ghost opre = order@;
            order.push(id);
            proof {
                assert(forall|k: int| 0 <= k < opre.len() ==> (#[trigger] order@[k]) == opre[k]);
                assert(order@.no_duplicates()) by {
                    assert forall|k1: int, k2: int|
                        0 <= k1 < order@.len() && 0 <= k2 < order@.len() && k1 != k2 implies order@[k1]
                        != order@[k2] by {
                        if k1 < opre.len() && k2 < opre.len() {
                        } else if k1 == opre.len() {
                            assert(opre.contains(opre[k2]));
                        } else if k2 == opre.len() {
                            assert(opre.contains(opre[k1]));
                        }
                    }
                }
                // the new entry's dependencies were all completed earlier
                assert forall|dj: int|
                    0 <= dj < ns0[id as int].dependencies@.len() implies opre.contains(
                    #[trigger] ns0[id as int].dependencies@[dj],
                ) && succ.contains(ns0[id as int].dependencies@[dj]) by {
                    let d = ns0[id as int].dependencies@[dj];
                    assert(g1.is_present(id as int));
                    assert(g1.nodes@[id as int].dependencies@ =~= ns0[
                        id as int
                    ].dependencies@.filter(outside(succ_pre)));
                    assert(g1.nodes@[id as int].dependencies@.len() == 0);
                    assert(succ_pre.contains(d)) by {
                        if !succ_pre.contains(d) {
                            assert(outside(succ_pre)(d));
                            Seq::lemma_filter_contains(
                                ns0[id as int].dependencies@,
                                outside(succ_pre),
                                dj,
                            );
                        }
                    }
                    assert(succ == succ_pre || succ == succ_pre.push(id));
                    assert(succ.contains(d));
                }
                assert forall|k: int, dj: int|
                    0 <= k < order@.len() && 0 <= dj < ns0[(order@[k]) as int].dependencies@.len()
                    implies order@.subrange(0, k).contains(
                    #[trigger] ns0[(order@[k]) as int].dependencies@[dj],
                ) && succ.contains(ns0[(order@[k]) as int].dependencies@[dj]) by {
                    if k < opre.len() {
                        assert(order@[k] == opre[k]);
                        assert(order@.subrange(0, k) =~= opre.subrange(0, k));
                        assert(opre.subrange(0, k).contains(
                            ns0[(opre[k]) as int].dependencies@[dj],
                        ));
                    } else {
                        assert(order@[k] == id);
                        assert(order@.subrange(0, k) =~= opre);
                    }
                }
                // membership relative to the start of the run
                assert(self.dag.present@ =~= g1.present@.update(id as int, false));
                assert forall|x: int|
                    0 <= x < n implies ((#[trigger] self.dag.is_present(x)) <==> (g0.is_present(x)
                        && !order@.contains(x as usize))) by {
                    assert(x < n as int);
                    if x == id as int {
                        assert(order@.contains(id));
                    } else {
                        assert(x as usize != id);
                        assert(self.dag.is_present(x) == g1.is_present(x));
                        assert(order@.contains(x as usize) == opre.contains(x as usize));
                    }
                }
                assert(g0.is_present(id as int));
                // bookkeeping of completed and failed ids
                assert(succ == succ_pre || succ == succ_pre.push(id));
                assert(succ.no_duplicates()) by {
                    if succ == succ_pre.push(id) {
                        lemma_push_no_dup(succ_pre, id);
                    }
                }
                assert(!err_ids(err1).contains(id)) by {
                    if err_ids(err1).contains(id) {
                        let k = choose|k: int| 0 <= k < err1.len() && err_ids(err1)[k] == id;
                        assert(!g1.is_present(err1[k].0 as int));
                    }
                }
                assert(err_ids(self.errors@) == err_ids(err1) || err_ids(self.errors@) == err_ids(
                    err1,
                ).push(id));
                assert forall|y: usize| #[trigger]
                    succ.contains(y) implies order@.contains(y) && !err_ids(
                    self.errors@,
                ).contains(y) by {
                    if succ_pre.contains(y) {
                        assert(opre.contains(y));
                        assert(!err_ids(err1).contains(y));
                        if err_ids(self.errors@) == err_ids(err1).push(id) {
                            assert(succ == succ_pre);
                            assert(y != id);
                            if err_ids(self.errors@).contains(y) {
                                let k = choose|k: int|
                                    0 <= k < err_ids(self.errors@).len() && err_ids(
                                        self.errors@,
                                    )[k] == y;
                                if k < err1.len() {
                                    assert(err_ids(err1)[k] == y);
                                } else {
                                    assert(y == id);
                                }
                            }
                        } else {
                            assert(err_ids(self.errors@) == err_ids(err1));
                        }
                    } else {
                        assert(y == id);
                        assert(succ == succ_pre.push(id));
                        assert(self.errors@ == err1);
                        assert(!err_ids(err1).contains(id));
                    }
                }
                assert forall|k: int|
                    0 <= k < order@.len() implies succ.contains(#[trigger] order@[k]) || err_ids(
                        self.errors@,
                    ).contains(order@[k]) by {
                    if k < opre.len() {
                        if succ_pre.contains(opre[k]) {
                            assert(succ.contains(opre[k]));
                        } else {
                            assert(err_ids(err1).contains(opre[k]));
                            let kk = choose|kk: int|
                                0 <= kk < err1.len() && err_ids(err1)[kk] == opre[k];
                            assert(err_ids(self.errors@)[kk] == opre[k]);
                            assert(err_ids(self.errors@).contains(opre[k]));
                        }
                    } else {
                        assert(order@[k] == id);
                        if succ == succ_pre.push(id) {
                            assert(succ.contains(id));
                        } else {
                            assert(err_ids(self.errors@) == err_ids(err1).push(id));
                            assert(err_ids(self.errors@).contains(id));
                        }
                    }
                }
                // the error map mirrors each executed task's outcome
                assert(forall|i: int|
                    0 <= i < n && i != id as int ==> (#[trigger] self.dag.nodes@[i]).value
                        == g1.nodes@[i].value);
                assert forall|k: int|
                    0 <= k < order@.len() implies (err_ids(self.errors@).contains(
                    #[trigger] order@[k],
                ) <==> !self.dag.nodes@[(order@[k]) as int].value.spec_succeeded()) by {
                    if k < opre.len() {
                        let y = opre[k];
                        assert(y != id);
                        assert(self.dag.nodes@[y as int].value == g1.nodes@[y as int].value);
                        assert(err_ids(err1).contains(y) <==> !g1.nodes@[
                            y as int
                        ].value.spec_succeeded());
                        if err_ids(self.errors@) == err_ids(err1).push(id) {
                            if err_ids(self.errors@).contains(y) {
                                let kk = choose|kk: int|
                                    0 <= kk < err_ids(self.errors@).len() && err_ids(
                                        self.errors@,
                                    )[kk] == y;
                                if kk < err1.len() {
                                    assert(err_ids(err1)[kk] == y);
                                } else {
                                    assert(y == id);
                                }
                            }
                            if err_ids(err1).contains(y) {
                                let kk = choose|kk: int|
                                    0 <= kk < err1.len() && err_ids(err1)[kk] == y;
                                assert(err_ids(self.errors@)[kk] == y);
                            }
                        }
                    } else {
                        assert(order@[k] == id);
                        if self.errors@ == err1 {
                            assert(!err_ids(err1).contains(id));
                            assert(self.dag.nodes@[id as int].value.spec_succeeded());
                        } else {
                            assert(err_ids(self.errors@).contains(id));
                            assert(!self.dag.nodes@[id as int].value.spec_succeeded());
                        }
                    }
                }
                // length of the execution order stays within the arena
                assert(opre.len() < n) by {
                    if opre.len() >= n {
                        lemma_seq_pigeonhole(order@, n as nat);
                        let (ki, kj) = choose|ki: int, kj: int|
                            0 <= ki < kj < order@.len() && order@[ki] == order@[kj];
                        assert(false);
                    }
                }
                if allp {
                    // retired slots keep an empty dependency list
                    assert forall|i: int|
                        0 <= i < n && !self.dag.is_present(i) implies (#[trigger] self.dag.nodes@[i]).dependencies@.len()
                        == 0 by {
                        if i == id as int {
                            assert(g1.is_root_id(id as int));
                            assert(g1.nodes@[i].dependencies@.len() == 0);
                        } else {
                            assert(!g1.is_present(i));
                            assert(g1.nodes@[i].dependencies@.len() == 0);
                        }
                        assert(g1x.nodes@[i].dependencies@.len() == 0);
                        if self.errors@ == err1 {
                            assert(self.dag.nodes@[i].dependencies@ == detach_adj(
                                deps_adj(g1x.nodes@),
                                dn,
                                id,
                            )[i]);
                            if dn.contains(i as usize) {
                                assert(self.dag.nodes@[i].dependencies@ == g1x.nodes@[
                                    i
                                ].dependencies@.filter(keep_other(id)));
                            } else {
                                assert(self.dag.nodes@[i].dependencies@ == g1x.nodes@[
                                    i
                                ].dependencies@);
                            }
                        } else {
                            assert(self.dag.nodes@[i].dependencies@ == g1x.nodes@[
                                i
                            ].dependencies@);
                        }
                    }
                    // the schedule followed so far, extended by this pop
                    assert forall|fails: Set<usize>|
                        (forall|k: int|
                            0 <= k < order@.len() ==> (fails.contains(#[trigger] order@[k])
                                <==> err_ids(self.errors@).contains(
                                    order@[k],
                                ))) implies #[trigger] spec_schedule(
                        deps_adj(ns0),
                        dnts_adj(ns0),
                        r0,
                        fails,
                        n as nat,
                    ) =~= order@ + spec_schedule(
                        deps_adj(self.dag.nodes@),
                        dnts_adj(ns0),
                        self.ready@,
                        fails,
                        (n - order@.len()) as nat,
                    ) by {
                        assert forall|k: int|
                            0 <= k < opre.len() implies (fails.contains(#[trigger] opre[k])
                            <==> err_ids(err1).contains(opre[k])) by {
                            let y = opre[k];
                            assert(order@[k] == y);
                            assert(fails.contains(y) <==> err_ids(self.errors@).contains(y));
                            assert(y != id);
                            if err_ids(self.errors@) == err_ids(err1).push(id) {
                                if err_ids(self.errors@).contains(y) {
                                    let kk = choose|kk: int|
                                        0 <= kk < err_ids(self.errors@).len() && err_ids(
                                            self.errors@,
                                        )[kk] == y;
                                    if kk < err1.len() {
                                        assert(err_ids(err1)[kk] == y);
                                    } else {
                                        assert(y == id);
                                    }
                                }
                                if err_ids(err1).contains(y) {
                                    let kk = choose|kk: int|
                                        0 <= kk < err1.len() && err_ids(err1)[kk] == y;
                                    assert(err_ids(self.errors@)[kk] == y);
                                }
                            }
                        }
                        let fuel_pre = (n - opre.len()) as nat;
                        let start_sched = spec_schedule(
                            deps_adj(ns0),
                            dnts_adj(ns0),
                            r0,
                            fails,
                            n as nat,
                        );
                        let hsched = spec_schedule(hdeps, dnts_adj(ns0), ready1, fails, fuel_pre);
                        assert(start_sched =~= opre + hsched);
                        assert(ready1.len() > 0);
                        assert(fuel_pre > 0);
                        assert(ready1[0] == id);
                        let tail1 = ready1.subrange(1, ready1.len() as int);
                        assert(rtail =~= tail1);
                        assert(order@ =~= opre + seq![id]);
                        let dnid = dnts_adj(ns0)[id as int];
                        assert(dnid == dn);
                        if self.errors@ == err1 {
                            assert(!fails.contains(id)) by {
                                assert(order@[opre.len() as int] == id);
                                assert(fails.contains(order@[opre.len() as int]) <==> err_ids(
                                    self.errors@,
                                ).contains(order@[opre.len() as int]));
                                assert(!err_ids(err1).contains(id));
                            }
                            let d2 = detach_adj(hdeps, dnid, id);
                            assert(deps_adj(g1x.nodes@) == hdeps);
                            assert(deps_adj(self.dag.nodes@) =~~= d2);
                            let promoted = dnid.filter(newly_unblocked(hdeps, d2));
                            assert(hsched =~= seq![id] + spec_schedule(
                                d2,
                                dnts_adj(ns0),
                                tail1 + promoted,
                                fails,
                                (fuel_pre - 1) as nat,
                            ));
                            assert(self.ready@ =~= rtail + dn.filter(
                                newly_unblocked(hdeps, deps_adj(self.dag.nodes@)),
                            ));
                            assert(newly_unblocked(hdeps, deps_adj(self.dag.nodes@))
                                == newly_unblocked(hdeps, d2));
                            assert(self.ready@ =~= tail1 + promoted);
                            assert(order@ + spec_schedule(
                                deps_adj(self.dag.nodes@),
                                dnts_adj(ns0),
                                self.ready@,
                                fails,
                                (n - order@.len()) as nat,
                            ) =~= opre + hsched);
                        } else {
                            assert(fails.contains(id)) by {
                                assert(order@[opre.len() as int] == id);
                                assert(fails.contains(order@[opre.len() as int]) <==> err_ids(
                                    self.errors@,
                                ).contains(order@[opre.len() as int]));
                                assert(err_ids(self.errors@).contains(id));
                            }
                            assert(deps_adj(self.dag.nodes@) =~~= hdeps);
                            assert(hsched =~= seq![id] + spec_schedule(
                                hdeps,
                                dnts_adj(ns0),
                                tail1,
                                fails,
                                (fuel_pre - 1) as nat,
                            ));
                            assert(self.ready@ =~= tail1);
                            assert(order@ + spec_schedule(
                                deps_adj(self.dag.nodes@),
                                dnts_adj(ns0),
                                self.ready@,
                                fails,
                                (n - order@.len()) as nat,
                            ) =~= opre + hsched);
                        }
                    }
                }
                // the error list only grows, with executed ids
                assert(e0.is_prefix_of(self.errors@)) by {
                    assert(e0.is_prefix_of(err1));
                    if self.errors@ != err1 {
                        assert(self.errors@.drop_last() =~= err1);
                        assert(forall|k: int|
                            0 <= k < err1.len() ==> (#[trigger] self.errors@[k]) == err1[k]);
                        assert(e0 =~= err1.subrange(0, e0.len() as int));
                        assert(e0 =~= self.errors@.subrange(0, e0.len() as int));
                    }
                }
                assert forall|k: int|
                    e0.len() <= k < self.errors@.len() implies order@.contains(
                    (#[trigger] self.errors@[k]).0,
                ) by {
                    if k < err1.len() {
                        assert(opre.contains(err1[k].0));
                    } else {
                        assert(self.errors@[k].0 == id);
                    }
                }
                // a closed graph stays closed while nothing fails
                if self.errors@ == e0 && g0.closed() {
                    assert(err1 == e0);
                    assert(g1.closed());
                    assert(g1x.closed()) by {
                        assert forall|a: usize, b: usize|
                            g1x.is_present(a as int) && #[trigger] edge(
                                deps_adj(g1x.nodes@),
                                a,
                                b,
                            ) implies g1x.is_present(b as int) by {
                            assert(edge(deps_adj(g1.nodes@), a, b));
                            assert(g1.is_present(a as int));
                            assert(g1.is_present(b as int));
                        }
                    }
                    assert(self.dag.closed());
                }
            }
        }
        proof {
            assert(forall|x: int|
                0 <= x < n ==> ((#[trigger] self.dag.is_present(x)) <==> (g0.is_present(x)
                    && !order@.contains(x as usize))));
            // the surviving dependency lists, phrased over the observable run
            assert forall|y: usize|
                (#[trigger] succ.contains(y)) == (order@.contains(y) && !err_ids(
                    self.errors@,
                ).contains(y)) by {
                if succ.contains(y) {
                } else if order@.contains(y) && !err_ids(self.errors@).contains(y) {
                    let k = choose|k: int| 0 <= k < order@.len() && order@[k] == y;
                    assert(succ.contains(order@[k]) || err_ids(self.errors@).contains(order@[k]));
                }
            }
            assert forall|i: int|
                0 <= i < n && self.dag.is_present(i) implies (#[trigger] self.dag.nodes@[i]).dependencies@
                =~= ns0[i].dependencies@.filter(
                not_completed(order@, err_ids(self.errors@)),
            ) by {
                assert(self.dag.nodes@[i].dependencies@ =~= ns0[i].dependencies@.filter(
                    outside(succ),
                ));
                assert forall|k: int|
                    0 <= k < ns0[i].dependencies@.len() implies outside(succ)(
                    #[trigger] ns0[i].dependencies@[k],
                ) == not_completed(order@, err_ids(self.errors@))(ns0[i].dependencies@[k]) by {
                    let y = ns0[i].dependencies@[k];
                    assert(succ.contains(y) == (order@.contains(y) && !err_ids(
                        self.errors@,
                    ).contains(y)));
                }
                lemma_filter_agree(
                    ns0[i].dependencies@,
                    outside(succ),
                    not_completed(order@, err_ids(self.errors@)),
                );
            }
            if self.errors@ == e0 && g0.closed() && acyclic(deps_adj(ns0)) {
                assert forall|x: int|
                    0 <= x < n && g0.is_present(x) implies order@.contains(x as usize) by {
                    if !order@.contains(x as usize) {
                        let live = Set::<usize>::new(
                            |y: usize| (y as int) < n as int && g0.is_present(y as int)
                                && !order@.contains(y),
                        );
                        assert(live.contains(x as usize));
                        assert forall|y: usize| #[trigger]
                            live.contains(y) implies exists|z: usize|
                            live.contains(z) && edge(deps_adj(ns0), y, z) by {
                            assert(self.dag.is_present(y as int));
                            assert(!self.dag.is_root_id(y as int)) by {
                                if self.dag.is_root_id(y as int) {
                                    assert(self.ready@.contains(y));
                                }
                            }
                            let dsy = self.dag.nodes@[y as int].dependencies@;
                            assert(dsy.len() > 0);
                            let z = dsy[0];
                            assert(dsy =~= ns0[y as int].dependencies@.filter(outside(succ)));
                            assert(dsy.contains(z));
                            Seq::lemma_filter_contains_rev(
                                ns0[y as int].dependencies@,
                                outside(succ),
                                z,
                            );
                            assert(ns0[y as int].dependencies@.contains(z));
                            assert(edge(deps_adj(ns0), y, z));
                            assert(outside(succ)(z));
                            assert(!order@.contains(z)) by {
                                if order@.contains(z) {
                                    let k = choose|k: int|
                                        0 <= k < order@.len() && order@[k] == z;
                                    assert(succ.contains(z) || err_ids(self.errors@).contains(z));
                                    if err_ids(e0).contains(z) {
                                        let kk = choose|kk: int|
                                            0 <= kk < e0.len() && err_ids(e0)[kk] == z;
                                        assert(!g0.is_present(e0[kk].0 as int));
                                        assert(g0.closed());
                                        assert(g0.is_present(y as int));
                                        assert(g0.is_present(z as int));
                                    }
                                }
                            }
                            assert(g0.is_present(z as int)) by {
                                assert(edge(deps_adj(g0.nodes@), y, z));
                            }
                            assert(live.contains(z));
                        }
                        lemma_all_blocked_has_cycle(deps_adj(ns0), live, x as usize);
                        let c = choose|c: usize| live.contains(c) && on_cycle(deps_adj(ns0), c);
                        assert(false);
                    }
                }
            }
        }
        order
    }
}

/// Filtering by the always-true predicate keeps a sequence unchanged.
proof fn lemma_filter_all_true(s: Seq<usize>)
    ensures
        s.filter(|y: usize| true) =~= s,
    decreases s.len(),
{
    reveal(Seq::filter);
    if s.len() > 0 {
        lemma_filter_all_true(s.drop_last());
    }
}

} // verus!
