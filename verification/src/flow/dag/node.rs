//! Graph vertices.
//!
//! A node is an arena entry: callers collect nodes in a vector, and
//! every edge names its endpoint by the endpoint's index in that
//! vector.  A node carries its task payload and its two edge sets,
//! `dependencies` (nodes that must complete first) and `dependants`
//! (nodes gated on this node).

use vstd::prelude::*;

use crate::cycle::adj_wf;
use crate::cycle::edge;

verus! {

/// A schedulable unit of work plus its structural edges.
#[derive(Debug, PartialEq, Eq, Hash)]
pub struct Node<T> {
    /// The task payload.
    pub value: T,
    /// Ids of the nodes this node depends on.
    pub dependencies: Vec<usize>,
    /// Ids of the nodes that depend on this node.
    pub dependants: Vec<usize>,
}

/// The dependency edges of an arena, as adjacency lists.
pub open spec fn deps_adj<T>(ns: Seq<Node<T>>) -> Seq<Seq<usize>> {
    Seq::new(ns.len(), |i: int| ns[i].dependencies@)
}

/// The dependant edges of an arena, as adjacency lists.
pub open spec fn dnts_adj<T>(ns: Seq<Node<T>>) -> Seq<Seq<usize>> {
    Seq::new(ns.len(), |i: int| ns[i].dependants@)
}

/// Every edge entry of the arena is a valid index into the arena.
pub open spec fn edges_in_range<T>(ns: Seq<Node<T>>) -> bool {
    adj_wf(deps_adj(ns)) && adj_wf(dnts_adj(ns))
}

/// Edge lists are sets: no id occurs twice in one list.
pub open spec fn edges_no_dup<T>(ns: Seq<Node<T>>) -> bool {
    forall|i: int|
        0 <= i < ns.len() ==> (#[trigger] ns[i].dependencies@).no_duplicates()
            && ns[i].dependants@.no_duplicates()
}

/// Edges always come as matched pairs: `b` is among `a`'s dependencies
/// exactly when `a` is among `b`'s dependants.
pub open spec fn edges_paired<T>(ns: Seq<Node<T>>) -> bool {
    forall|a: usize, b: usize|
        #[trigger] edge(deps_adj(ns), a, b) <==> #[trigger] edge(dnts_adj(ns), b, a)
}

/// The structural well-formedness of a node arena.
pub open spec fn arena_wf<T>(ns: Seq<Node<T>>) -> bool {
    &&& edges_in_range(ns)
    &&& edges_no_dup(ns)
    &&& edges_paired(ns)
}

/// Keeps every id other than `id`: the filter applied to a dependency
/// list when node `id` is detached.
pub open spec fn keep_other(id: usize) -> spec_fn(usize) -> bool {
    |y: usize| y != id
}

/// The dependency adjacency lists after node `id` has been detached
/// from the dependency set of each of its dependants.
pub open spec fn detach_adj(
    deps: Seq<Seq<usize>>,
    dnts_of_id: Seq<usize>,
    id: usize,
) -> Seq<Seq<usize>> {
    Seq::new(
        deps.len(),
        |i: int|
            if dnts_of_id.contains(i as usize) {
                deps[i].filter(keep_other(id))
            } else {
                deps[i]
            },
    )
}

/// Detaching twice is the same as detaching once: `Node::remove` is
/// idempotent on the dependency edge sets, and it never touches the
/// dependant edge sets at all.
pub proof fn lemma_detach_idempotent(deps: Seq<Seq<usize>>, dnts_of_id: Seq<usize>, id: usize)
    ensures
        detach_adj(detach_adj(deps, dnts_of_id, id), dnts_of_id, id) =~= detach_adj(
            deps,
            dnts_of_id,
            id,
        ),
{
    let once = detach_adj(deps, dnts_of_id, id);
    let twice = detach_adj(once, dnts_of_id, id);
    assert forall|i: int| 0 <= i < deps.len() implies twice[i] =~= once[i] by {
        if dnts_of_id.contains(i as usize) {
            lemma_filter_idempotent(deps[i], keep_other(id));
        }
    }
}

/// A sequence whose elements all satisfy the predicate filters to
/// itself.
proof fn lemma_filter_all_sat(s: Seq<usize>, pred: spec_fn(usize) -> bool)
    requires
        forall|i: int| 0 <= i < s.len() ==> pred(#[trigger] s[i]),
    ensures
        s.filter(pred) =~= s,
    decreases s.len(),
{
    reveal(Seq::filter);
    if s.len() > 0 {
        lemma_filter_all_sat(s.drop_last(), pred);
    }
}

/// Filtering preserves freedom from duplicates.
pub proof fn lemma_filter_no_dup(s: Seq<usize>, pred: spec_fn(usize) -> bool)
    requires
        s.no_duplicates(),
    ensures
        s.filter(pred).no_duplicates(),
    decreases s.len(),
{
    reveal(Seq::filter);
    if s.len() > 0 {
        let s0 = s.drop_last();
        assert(s0.no_duplicates());
        lemma_filter_no_dup(s0, pred);
        if pred(s.last()) {
            let f0 = s0.filter(pred);
            let f = f0.push(s.last());
            assert(!s0.contains(s.last())) by {
                if s0.contains(s.last()) {
                    let i = choose|i: int| 0 <= i < s0.len() && s0[i] == s.last();
                    assert(s[i] == s[s.len() - 1]);
                }
            }
            assert(!f0.contains(s.last())) by {
                if f0.contains(s.last()) {
                    Seq::lemma_filter_contains_rev(s0, pred, s.last());
                }
            }
            assert(f.no_duplicates()) by {
                assert(forall|i: int| 0 <= i < f0.len() ==> f[i] == f0[i]);
                assert forall|i: int, j: int|
                    0 <= i < f.len() && 0 <= j < f.len() && i != j implies f[i] != f[j] by {
                    if i < f.len() - 1 && j < f.len() - 1 {
                    } else if i == f.len() - 1 && j < f.len() - 1 {
                        assert(f0.contains(f0[j]));
                    } else if j == f.len() - 1 && i < f.len() - 1 {
                        assert(f0.contains(f0[i]));
                    }
                }
            }
            assert(s.filter(pred) == f);
        }
    }
}

pub proof fn lemma_filter_idempotent(s: Seq<usize>, pred: spec_fn(usize) -> bool)
    ensures
        s.filter(pred).filter(pred) =~= s.filter(pred),
{
    broadcast use vstd::seq_lib::group_filter_ensures;

    let f = s.filter(pred);
    assert(forall|i: int| 0 <= i < f.len() ==> pred(#[trigger] f[i]));
    lemma_filter_all_sat(f, pred);
}

/// Whether `v` holds `x`, by a linear scan.
pub fn contains_id(v: &Vec<usize>, x: usize) -> (r: bool)
    ensures
        r == v@.contains(x),
{
    let mut i: usize = 0;
    while i < v.len()
        invariant
            i <= v@.len(),
            forall|j: int| 0 <= j < i ==> (#[trigger] v@[j]) != x,
        decreases v@.len() - i,
    {
        if v[i] == x {
            return true;
        }
        i += 1;
    }
    false
}

/// Removes every occurrence of `x` from `v`, keeping the order of the
/// other elements.
#[verifier::loop_isolation(false)]
pub fn remove_id(v: &mut Vec<usize>, x: usize)
    ensures
        final(v)@ =~= old(v)@.filter(keep_other(x)),
{
    broadcast use vstd::seq_lib::lemma_seq_contains_after_push;

    let ghost pred = keep_other(x);
    let mut out: Vec<usize> = Vec::new();
    let mut i: usize = 0;
    while i < v.len()
        invariant
            i <= v@.len(),
            out@ =~= v@.subrange(0, i as int).filter(pred),
        decreases v@.len() - i,
    {
        let y = v[i];
        proof {
            assert(v@.subrange(0, i + 1 as int).drop_last() =~= v@.subrange(0, i as int));
            assert(v@.subrange(0, i + 1 as int).last() == v@[i as int]);
            Seq::lemma_filter_push(v@.subrange(0, i as int), y, pred);
            assert(v@.subrange(0, i as int).push(y) =~= v@.subrange(0, i + 1 as int));
        }
        if y != x {
            out.push(y);
        }
        i += 1;
    }
    proof {
        assert(v@.subrange(0, v@.len() as int) =~= v@);
    }
    *v = out;
}

impl<T> Node<T> {
    /// A standalone node with the given payload and no edges.
    pub fn new(v: T) -> (r: Node<T>)
        ensures
            r.value == v,
            r.dependencies@ =~= Seq::<usize>::empty(),
            r.dependants@ =~= Seq::<usize>::empty(),
    {
        Node { value: v, dependencies: Vec::new(), dependants: Vec::new() }
    }

    /// Records that this node depends on `dep`.  Callers are expected
    /// to insert the matching dependant edge as well; the graph's `dep`
    /// operation does both sides atomically.
    pub fn add_dependency(&mut self, dep: usize)
        ensures
            final(self).value == old(self).value,
            final(self).dependants@ == old(self).dependants@,
            final(self).dependencies@ == if old(self).dependencies@.contains(dep) {
                old(self).dependencies@
            } else {
                old(self).dependencies@.push(dep)
            },
    {
        if !contains_id(&self.dependencies, dep) {
            self.dependencies.push(dep);
        }
    }

    /// Records that `dep` depends on this node (the inverse edge).
    pub fn add_dependant(&mut self, dep: usize)
        ensures
            final(self).value == old(self).value,
            final(self).dependencies@ == old(self).dependencies@,
            final(self).dependants@ == if old(self).dependants@.contains(dep) {
                old(self).dependants@
            } else {
                old(self).dependants@.push(dep)
            },
    {
        if !contains_id(&self.dependants, dep) {
            self.dependants.push(dep);
        }
    }

    /// Detaches node `id` from the dependency set of every one of its
    /// dependants, as when the node is retired from a graph.  Safe to
    /// invoke more than once: a second call finds nothing left to
    /// detach (see `lemma_detach_idempotent`).
    #[verifier::loop_isolation(false)]
    pub fn remove(nodes: &mut Vec<Node<T>>, id: usize)
        requires
            id < old(nodes)@.len(),
            adj_wf(dnts_adj(old(nodes)@)),
        ensures
            final(nodes)@.len() == old(nodes)@.len(),
            deps_adj(final(nodes)@) =~~= detach_adj(
                deps_adj(old(nodes)@),
                old(nodes)@[id as int].dependants@,
                id,
            ),
            forall|i: int|
                0 <= i < final(nodes)@.len() ==> (#[trigger] final(nodes)@[i]).value == old(
                    nodes,
                )@[i].value && final(nodes)@[i].dependants@ == old(nodes)@[i].dependants@,
    {
        let ghost ns0 = nodes@;
        let ghost pred = keep_other(id);
        let ghost dn = ns0[id as int].dependants@;
        let n = nodes.len();
        let m = nodes[id].dependants.len();
        let mut j: usize = 0;
        while j < m
            invariant
                id < nodes@.len(),
                nodes@.len() == ns0.len(),
                j <= m,
                m == dn.len(),
                adj_wf(dnts_adj(ns0)),
                forall|i: int|
                    0 <= i < nodes@.len() ==> (#[trigger] nodes@[i]).value == ns0[i].value
                        && nodes@[i].dependants@ == ns0[i].dependants@,
                forall|i: int|
                    0 <= i < nodes@.len() ==> (#[trigger] nodes@[i].dependencies@) =~= (
                    if dn.subrange(0, j as int).contains(i as usize) {
                        ns0[i].dependencies@.filter(pred)
                    } else {
                        ns0[i].dependencies@
                    }),
            decreases m - j,
        {
            broadcast use vstd::seq_lib::lemma_seq_contains_after_push;

            let p = nodes[id].dependants[j];
            proof {
                assert(dnts_adj(ns0)[id as int][j as int] == dn[j as int]);
                assert(p < nodes@.len());
                assert(dn.subrange(0, j + 1 as int) =~= dn.subrange(0, j as int).push(p));
            }
            remove_id(&mut nodes[p].dependencies, id);
            proof {
                let sj = dn.subrange(0, j as int);
                let sj1 = dn.subrange(0, j + 1);
                assert(sj1 == sj.push(p));
                if sj.contains(p) {
                    lemma_filter_idempotent(ns0[p as int].dependencies@, pred);
                }
                assert forall|i: int|
                    0 <= i < nodes@.len() implies (#[trigger] nodes@[i].dependencies@) =~= (
                if sj1.contains(i as usize) {
                    ns0[i].dependencies@.filter(pred)
                } else {
                    ns0[i].dependencies@
                }) by {
                    vstd::seq_lib::lemma_seq_contains_after_push(sj, p, i as usize);
                    assert(sj1.contains(i as usize) == (i as usize == p || sj.contains(
                        i as usize,
                    )));
                    if i == p as int {
                        assert(sj1.contains(p));
                    } else {
                        assert(i < n as int);
                        assert(i as usize != p);
                        assert(sj1.contains(i as usize) == sj.contains(i as usize));
                    }
                }
            }
            j += 1;
        }
        proof {
            assert(dn.subrange(0, m as int) =~= dn);
            assert forall|i: int|
                0 <= i < nodes@.len() implies deps_adj(nodes@)[i] =~= detach_adj(
                deps_adj(ns0),
                dn,
                id,
            )[i] by {
                assert(nodes@[i].dependencies@ =~= (if dn.contains(i as usize) {
                    ns0[i].dependencies@.filter(pred)
                } else {
                    ns0[i].dependencies@
                }));
            }
        }
    }
}

} // verus!
