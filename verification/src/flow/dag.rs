//! The directed-acyclic-graph representation used by the scheduler.
//!
//! A `Dag` owns the node arena, tracks which arena slots are members of
//! the graph, and maintains the derived root set (members with an empty
//! dependency set).  Structural mutations validate acyclicity with the
//! three-colour search of `crate::cycle` and commit nothing when they
//! report an error.

use vstd::prelude::*;

use crate::cycle::acyclic;
use crate::cycle::adj_wf;
use crate::cycle::cycle_reachable_from;
use crate::cycle::edge;
use crate::cycle::find_reachable_cycle;
use crate::cycle::on_cycle;
use crate::cycle::reaches;
use crate::cycle::view_adj;
use crate::errors::DagError;
use crate::flow::dag::node::arena_wf;
use crate::flow::dag::node::contains_id;
use crate::flow::dag::node::deps_adj;
use crate::flow::dag::node::detach_adj;
use crate::flow::dag::node::dnts_adj;
use crate::flow::dag::node::edges_in_range;
use crate::flow::dag::node::edges_no_dup;
use crate::flow::dag::node::edges_paired;
use crate::flow::dag::node::keep_other;
use crate::flow::dag::node::lemma_filter_no_dup;
use crate::flow::dag::node::remove_id;
use crate::flow::dag::node::Node;

pub mod node;

verus! {

/// A dependency graph: the node arena, the membership of each arena
/// slot, and the derived root set.
pub struct Dag<T> {
    /// The node arena; edge entries index into it.
    pub nodes: Vec<Node<T>>,
    /// Whether each arena slot is currently a member of the graph.
    pub present: Vec<bool>,
    /// The ids of the members with an empty dependency set.
    pub roots: Vec<usize>,
}

/// One arena entry has set-like, in-range edge lists whose edges all
/// have their matching half on the other endpoint.
pub open spec fn node_ok<T>(ns: Seq<Node<T>>, k: int) -> bool {
    &&& ns[k].dependencies@.no_duplicates()
    &&& ns[k].dependants@.no_duplicates()
    &&& forall|j: int|
        0 <= j < ns[k].dependencies@.len() ==> (#[trigger] ns[k].dependencies@[j]) < ns.len()
            && ns[(ns[k].dependencies@[j]) as int].dependants@.contains(k as usize)
    &&& forall|j: int|
        0 <= j < ns[k].dependants@.len() ==> (#[trigger] ns[k].dependants@[j]) < ns.len()
            && ns[(ns[k].dependants@[j]) as int].dependencies@.contains(k as usize)
}

/// `arena_wf` is exactly "every entry passes `node_ok`".
pub proof fn lemma_arena_wf_iff_nodes_ok<T>(ns: Seq<Node<T>>)
    requires
        ns.len() <= usize::MAX,
    ensures
        arena_wf(ns) <==> (forall|k: int| 0 <= k < ns.len() ==> node_ok(ns, k)),
{
    if forall|k: int| 0 <= k < ns.len() ==> node_ok(ns, k) {
        assert(adj_wf(deps_adj(ns))) by {
            assert forall|i: int, j: int|
                0 <= i < deps_adj(ns).len() && 0 <= j < deps_adj(ns)[i].len() implies (
            #[trigger] deps_adj(ns)[i][j]) < deps_adj(ns).len() by {
                assert(node_ok(ns, i));
            }
        }
        assert(adj_wf(dnts_adj(ns))) by {
            assert forall|i: int, j: int|
                0 <= i < dnts_adj(ns).len() && 0 <= j < dnts_adj(ns)[i].len() implies (
            #[trigger] dnts_adj(ns)[i][j]) < dnts_adj(ns).len() by {
                assert(node_ok(ns, i));
            }
        }
        assert(edges_no_dup(ns)) by {
            assert forall|i: int| 0 <= i < ns.len() implies (#[trigger] ns[i].dependencies@)
                .no_duplicates() && ns[i].dependants@.no_duplicates() by {
                assert(node_ok(ns, i));
            }
        }
        assert(edges_paired(ns)) by {
            assert forall|a: usize, b: usize| #[trigger]
                edge(deps_adj(ns), a, b) implies #[trigger] edge(dnts_adj(ns), b, a) by {
                let j = choose|j: int|
                    0 <= j < ns[a as int].dependencies@.len() && ns[a as int].dependencies@[j]
                        == b;
                assert(node_ok(ns, a as int));
                assert(ns[b as int].dependants@.contains(a));
            }
            assert forall|a: usize, b: usize| #[trigger]
                edge(dnts_adj(ns), b, a) implies #[trigger] edge(deps_adj(ns), a, b) by {
                let j = choose|j: int|
                    0 <= j < ns[b as int].dependants@.len() && ns[b as int].dependants@[j] == a;
                assert(node_ok(ns, b as int));
                assert(ns[a as int].dependencies@.contains(b));
            }
        }
    }
    if arena_wf(ns) {
        assert forall|k: int| 0 <= k < ns.len() implies node_ok(ns, k) by {
            assert forall|j: int|
                0 <= j < ns[k].dependencies@.len() implies (#[trigger] ns[k].dependencies@[j])
                < ns.len() && ns[(ns[k].dependencies@[j]) as int].dependants@.contains(
                k as usize,
            ) by {
                assert(deps_adj(ns)[k][j] == ns[k].dependencies@[j]);
                let b = ns[k].dependencies@[j];
                assert(b < ns.len());
                assert(edge(deps_adj(ns), k as usize, b));
                assert(edge(dnts_adj(ns), b, k as usize));
            }
            assert forall|j: int|
                0 <= j < ns[k].dependants@.len() implies (#[trigger] ns[k].dependants@[j])
                < ns.len() && ns[(ns[k].dependants@[j]) as int].dependencies@.contains(
                k as usize,
            ) by {
                assert(dnts_adj(ns)[k][j] == ns[k].dependants@[j]);
                let b = ns[k].dependants@[j];
                assert(b < ns.len());
                assert(edge(dnts_adj(ns), k as usize, b));
                assert(edge(deps_adj(ns), b, k as usize));
            }
        }
    }
}

/// There is at least one node with an empty dependency set.
pub open spec fn has_root_cand<T>(ns: Seq<Node<T>>) -> bool {
    exists|i: int| 0 <= i < ns.len() && ns[i].dependencies@.len() == 0
}

/// `i` is a root candidate: a valid id whose dependency set is empty.
pub open spec fn cand_root<T>(ns: Seq<Node<T>>, i: int) -> bool {
    0 <= i < ns.len() && ns[i].dependencies@.len() == 0
}

/// No cycle is reachable from any root candidate, walking dependant
/// edges.
pub open spec fn validates<T>(ns: Seq<Node<T>>) -> bool {
    forall|i: int| #[trigger]
        cand_root(ns, i) ==> !cycle_reachable_from(dnts_adj(ns), i as usize)
}

/// The condition under which `Dag::build` succeeds.
pub open spec fn buildable<T>(ns: Seq<Node<T>>) -> bool {
    &&& arena_wf(ns)
    &&& has_root_cand(ns)
    &&& validates(ns)
}

/// Pushing a fresh element preserves freedom from duplicates.
pub proof fn lemma_push_no_dup_ids(s: Seq<usize>, x: usize)
    requires
        s.no_duplicates(),
        !s.contains(x),
    ensures
        s.push(x).no_duplicates(),
{
    let s2 = s.push(x);
    assert(forall|k: int| 0 <= k < s.len() ==> (#[trigger] s2[k]) == s[k]);
    assert forall|k1: int, k2: int|
        0 <= k1 < s2.len() && 0 <= k2 < s2.len() && k1 != k2 implies s2[k1] != s2[k2] by {
        if k1 < s.len() && k2 < s.len() {
        } else if k1 == s.len() {
            assert(s.contains(s[k2]));
        } else if k2 == s.len() {
            assert(s.contains(s[k1]));
        }
    }
}

/// A copy of `v`.
#[verifier::loop_isolation(false)]
pub fn copy_ids(v: &Vec<usize>) -> (r: Vec<usize>)
    ensures
        r@ =~= v@,
{
    let mut r: Vec<usize> = Vec::new();
    let mut i: usize = 0;
    while i < v.len()
        invariant
            i <= v@.len(),
            r@ =~= v@.subrange(0, i as int),
        decreases v@.len() - i,
    {
        r.push(v[i]);
        proof {
            assert(r@ =~= v@.subrange(0, i + 1));
        }
        i += 1;
    }
    proof {
        assert(v@.subrange(0, v@.len() as int) =~= v@);
    }
    r
}

/// Whether `v` is free of duplicate entries, by a quadratic scan.
#[verifier::loop_isolation(false)]
pub fn no_dup_ids(v: &Vec<usize>) -> (r: bool)
    ensures
        r == v@.no_duplicates(),
{
    let mut i: usize = 0;
    while i < v.len()
        invariant
            i <= v@.len(),
            forall|k1: int, k2: int|
                0 <= k1 < k2 < i ==> (#[trigger] v@[k1]) != (#[trigger] v@[k2]),
        decreases v@.len() - i,
    {
        let mut j: usize = 0;
        while j < i
            invariant
                j <= i < v@.len(),
                forall|k: int| 0 <= k < j ==> (#[trigger] v@[k]) != v@[i as int],
            decreases i - j,
        {
            if v[j] == v[i] {
                return false;
            }
            j += 1;
        }
        i += 1;
    }
    proof {
        assert forall|k1: int, k2: int|
            0 <= k1 < v@.len() && 0 <= k2 < v@.len() && k1 != k2 implies v@[k1] != v@[k2] by {
            if k1 < k2 {
            } else {
                assert(v@[k2] != v@[k1]);
            }
        }
    }
    true
}

/// Whether one arena entry passes `node_ok`.
#[verifier::loop_isolation(false)]
fn check_node<T>(nodes: &Vec<Node<T>>, k: usize) -> (r: bool)
    requires
        k < nodes@.len(),
    ensures
        r == node_ok(nodes@, k as int),
{
    let n = nodes.len();
    if !no_dup_ids(&nodes[k].dependencies) {
        return false;
    }
    if !no_dup_ids(&nodes[k].dependants) {
        return false;
    }
    let m1 = nodes[k].dependencies.len();
    let mut j: usize = 0;
    while j < m1
        invariant
            j <= m1,
            m1 == nodes@[k as int].dependencies@.len(),
            forall|jj: int|
                0 <= jj < j ==> (#[trigger] nodes@[k as int].dependencies@[jj]) < nodes@.len()
                    && nodes@[(nodes@[k as int].dependencies@[jj]) as int].dependants@.contains(
                    k,
                ),
        decreases m1 - j,
    {
        let d = nodes[k].dependencies[j];
        if d >= n {
            return false;
        }
        if !contains_id(&nodes[d].dependants, k) {
            return false;
        }
        j += 1;
    }
    let m2 = nodes[k].dependants.len();
    let mut j2: usize = 0;
    while j2 < m2
        invariant
            j2 <= m2,
            m2 == nodes@[k as int].dependants@.len(),
            forall|jj: int|
                0 <= jj < j2 ==> (#[trigger] nodes@[k as int].dependants@[jj]) < nodes@.len()
                    && nodes@[(nodes@[k as int].dependants@[jj]) as int].dependencies@.contains(
                    k,
                ),
        decreases m2 - j2,
    {
        let p = nodes[k].dependants[j2];
        if p >= n {
            return false;
        }
        if !contains_id(&nodes[p].dependencies, k) {
            return false;
        }
        j2 += 1;
    }
    true
}

/// Whether the whole arena is structurally well formed.
#[verifier::loop_isolation(false)]
fn check_arena<T>(nodes: &Vec<Node<T>>) -> (r: bool)
    ensures
        r == arena_wf(nodes@),
{
    let n = nodes.len();
    proof {
        lemma_arena_wf_iff_nodes_ok(nodes@);
    }
    let mut i: usize = 0;
    while i < n
        invariant
            i <= n,
            n == nodes@.len(),
            forall|k: int| 0 <= k < i ==> node_ok(nodes@, k),
        decreases n - i,
    {
        if !check_node(nodes, i) {
            return false;
        }
        i += 1;
    }
    true
}

/// The dependant edge lists of the arena, as a plain adjacency vector.
#[verifier::loop_isolation(false)]
fn dnts_lists<T>(nodes: &Vec<Node<T>>) -> (r: Vec<Vec<usize>>)
    ensures
        r@.len() == nodes@.len(),
        view_adj(r@) =~~= dnts_adj(nodes@),
{
    let mut r: Vec<Vec<usize>> = Vec::new();
    let mut i: usize = 0;
    while i < nodes.len()
        invariant
            i <= nodes@.len(),
            r@.len() == i,
            forall|k: int| 0 <= k < i ==> (#[trigger] r@[k])@ =~= nodes@[k].dependants@,
        decreases nodes@.len() - i,
    {
        r.push(copy_ids(&nodes[i].dependants));
        i += 1;
    }
    r
}

impl<T> Dag<T> {
    /// Whether arena slot `i` is a member of the graph.
    pub open spec fn is_present(self, i: int) -> bool {
        0 <= i < self.present@.len() && self.present@[i]
    }

    /// Whether arena slot `i` is a member with no outstanding
    /// dependency, i.e. a root.
    pub open spec fn is_root_id(self, i: int) -> bool {
        self.is_present(i) && self.nodes@[i].dependencies@.len() == 0
    }

    /// Matched edge pairs, demanded only while both endpoints are
    /// members: a retired node's dependants keep no dependency edge to
    /// it, but its own edge lists are left as they were.
    pub open spec fn paired(self) -> bool {
        forall|a: usize, b: usize|
            self.is_present(a as int) && self.is_present(b as int) ==> ((#[trigger] edge(
                deps_adj(self.nodes@),
                a,
                b,
            )) <==> (#[trigger] edge(dnts_adj(self.nodes@), b, a)))
    }

    /// Structural well-formedness: lengths agree, edge lists are
    /// in-range duplicate-free sets, members' edges are paired, and
    /// `roots` holds exactly the member ids with no dependency.
    pub open spec fn wf(self) -> bool {
        &&& self.present@.len() == self.nodes@.len()
        &&& edges_in_range(self.nodes@)
        &&& edges_no_dup(self.nodes@)
        &&& self.paired()
        &&& self.roots@.no_duplicates()
        &&& forall|k: int|
            0 <= k < self.roots@.len() ==> self.is_root_id((#[trigger] self.roots@[k]) as int)
        &&& forall|x: int|
            0 <= x < self.nodes@.len() && #[trigger] self.is_root_id(x)
                ==> self.roots@.contains(x as usize)
    }

    /// Every dependency of a member is itself a member.  Holds for a
    /// freshly built graph; a failed task is retired without detaching,
    /// which leaves its dependants with a dependency on a non-member.
    pub open spec fn closed(self) -> bool {
        forall|a: usize, b: usize|
            self.is_present(a as int) && #[trigger] edge(deps_adj(self.nodes@), a, b)
                ==> self.is_present(b as int)
    }

    /// A standalone node with the given payload and no edges.
    pub fn node(value: T) -> (r: Node<T>)
        ensures
            r.value == value,
            r.dependencies@ =~= Seq::<usize>::empty(),
            r.dependants@ =~= Seq::<usize>::empty(),
    {
        Node::new(value)
    }

    /// Records "`from` depends on `to`" in the arena, inserting both
    /// halves of the edge atomically.  Fails with `NodeNotRegistered`,
    /// changing nothing, when either endpoint is not an arena slot.
    /// Acyclicity is not re-validated here: callers composing many
    /// edges insert them all and then validate once, at `build`.
    pub fn dep(nodes: &mut Vec<Node<T>>, from: usize, to: usize) -> (r: Result<(), DagError>)
        ensures
            r is Ok <==> (from < old(nodes)@.len() && to < old(nodes)@.len()),
            r is Err ==> final(nodes)@ == old(nodes)@ && r == Err::<(), DagError>(
                DagError::NodeNotRegistered,
            ),
            r is Ok ==> ({
                let ns0 = old(nodes)@;
                let ns2 = final(nodes)@;
                &&& ns2.len() == ns0.len()
                &&& forall|i: int| 0 <= i < ns0.len() ==> (#[trigger] ns2[i]).value == ns0[i].value
                &&& forall|i: int|
                    0 <= i < ns0.len() && i != from ==> (#[trigger] ns2[i]).dependencies@
                        == ns0[i].dependencies@
                &&& forall|i: int|
                    0 <= i < ns0.len() && i != to ==> (#[trigger] ns2[i]).dependants@
                        == ns0[i].dependants@
                &&& ns2[from as int].dependencies@ == (if ns0[from as int].dependencies@.contains(
                    to,
                ) {
                    ns0[from as int].dependencies@
                } else {
                    ns0[from as int].dependencies@.push(to)
                })
                &&& ns2[to as int].dependants@ == (if ns0[to as int].dependants@.contains(from) {
                    ns0[to as int].dependants@
                } else {
                    ns0[to as int].dependants@.push(from)
                })
                &&& (arena_wf(ns0) ==> arena_wf(ns2))
            }),
    {
        if from >= nodes.len() || to >= nodes.len() {
            return Err(DagError::NodeNotRegistered);
        }
        let ghost ns0 = nodes@;
        nodes[from].add_dependency(to);
        nodes[to].add_dependant(from);
        proof {
            broadcast use vstd::seq_lib::lemma_seq_contains_after_push;

            let ns2 = nodes@;
            if arena_wf(ns0) {
                assert(adj_wf(deps_adj(ns2))) by {
                    assert forall|i: int, j: int|
                        0 <= i < deps_adj(ns2).len() && 0 <= j < deps_adj(ns2)[i].len() implies (
                    #[trigger] deps_adj(ns2)[i][j]) < deps_adj(ns2).len() by {
                        if i != from as int || ns0[from as int].dependencies@.contains(to) {
                            assert(deps_adj(ns0)[i][j] == deps_adj(ns2)[i][j]);
                        } else {
                            if j < deps_adj(ns0)[i].len() {
                                assert(deps_adj(ns0)[i][j] == deps_adj(ns2)[i][j]);
                            } else {
                                assert(deps_adj(ns2)[i][j] == to);
                            }
                        }
                    }
                }
                assert(adj_wf(dnts_adj(ns2))) by {
                    assert forall|i: int, j: int|
                        0 <= i < dnts_adj(ns2).len() && 0 <= j < dnts_adj(ns2)[i].len() implies (
                    #[trigger] dnts_adj(ns2)[i][j]) < dnts_adj(ns2).len() by {
                        if i != to as int || ns0[to as int].dependants@.contains(from) {
                            assert(dnts_adj(ns0)[i][j] == dnts_adj(ns2)[i][j]);
                        } else {
                            if j < dnts_adj(ns0)[i].len() {
                                assert(dnts_adj(ns0)[i][j] == dnts_adj(ns2)[i][j]);
                            } else {
                                assert(dnts_adj(ns2)[i][j] == from);
                            }
                        }
                    }
                }
                assert(edges_no_dup(ns2)) by {
                    assert forall|i: int|
                        0 <= i < ns2.len() implies (#[trigger] ns2[i].dependencies@)
                        .no_duplicates() && ns2[i].dependants@.no_duplicates() by {
                        assert(ns0[i].dependencies@.no_duplicates());
                        assert(ns0[i].dependants@.no_duplicates());
                        if i == from as int && !ns0[from as int].dependencies@.contains(to) {
                            let s = ns0[i].dependencies@;
                            assert forall|k1: int, k2: int|
                                0 <= k1 < s.push(to).len() && 0 <= k2 < s.push(to).len() && k1
                                    != k2 implies s.push(to)[k1] != s.push(to)[k2] by {
                                if k1 < s.len() && k2 < s.len() {
                                } else if k1 == s.len() {
                                    assert(s.contains(s[k2]));
                                } else if k2 == s.len() {
                                    assert(s.contains(s[k1]));
                                }
                            }
                        }
                        if i == to as int && !ns0[to as int].dependants@.contains(from) {
                            let s = ns0[i].dependants@;
                            assert forall|k1: int, k2: int|
                                0 <= k1 < s.push(from).len() && 0 <= k2 < s.push(from).len() && k1
                                    != k2 implies s.push(from)[k1] != s.push(from)[k2] by {
                                if k1 < s.len() && k2 < s.len() {
                                } else if k1 == s.len() {
                                    assert(s.contains(s[k2]));
                                } else if k2 == s.len() {
                                    assert(s.contains(s[k1]));
                                }
                            }
                        }
                    }
                }
                assert(edge(deps_adj(ns2), from, to));
                assert(edge(dnts_adj(ns2), to, from));
                assert forall|a: usize, b: usize| #[trigger]
                    edge(deps_adj(ns2), a, b) implies #[trigger] edge(dnts_adj(ns2), b, a) by {
                    if a == from && b == to {
                    } else {
                        assert(edge(deps_adj(ns0), a, b)) by {
                            if a == from && !ns0[from as int].dependencies@.contains(to) {
                                assert(ns2[a as int].dependencies@ == ns0[
                                    a as int
                                ].dependencies@.push(to));
                            }
                        }
                        assert(edge(dnts_adj(ns0), b, a));
                        assert(edge(dnts_adj(ns2), b, a)) by {
                            if b == to && !ns0[to as int].dependants@.contains(from) {
                                assert(ns2[b as int].dependants@ == ns0[
                                    b as int
                                ].dependants@.push(from));
                            }
                        }
                    }
                }
                assert forall|a: usize, b: usize| #[trigger]
                    edge(dnts_adj(ns2), b, a) implies #[trigger] edge(deps_adj(ns2), a, b) by {
                    if a == from && b == to {
                    } else {
                        assert(edge(dnts_adj(ns0), b, a)) by {
                            if b == to && !ns0[to as int].dependants@.contains(from) {
                                assert(ns2[b as int].dependants@ == ns0[
                                    b as int
                                ].dependants@.push(from));
                            }
                        }
                        assert(edge(deps_adj(ns0), a, b));
                        assert(edge(deps_adj(ns2), a, b)) by {
                            if a == from && !ns0[from as int].dependencies@.contains(to) {
                                assert(ns2[a as int].dependencies@ == ns0[
                                    a as int
                                ].dependencies@.push(to));
                            }
                        }
                    }
                }
            }
        }
        Ok(())
    }

    /// Collects the graph from an arena of nodes whose edges are
    /// already wired: membership covers the whole arena, the roots are
    /// the nodes with an empty dependency set, and global acyclicity is
    /// validated by an independent traversal of dependant edges from
    /// every root.  Fails with `NodeNotRegistered` if an edge entry
    /// points outside the arena, lacks its matching half, or is
    /// duplicated; with `NoRoots` if no node is dependency-free; with
    /// `CycleDetected` if a cycle is reachable from a root.
    #[verifier::loop_isolation(false)]
pub fn build(nodes: Vec<Node<T>>) -> (r: Result<Dag<T>, DagError>)
        ensures
            r is Ok <==> buildable(nodes@),
            r == Err::<Dag<T>, DagError>(DagError::NodeNotRegistered) <==> !arena_wf(nodes@),
            r == Err::<Dag<T>, DagError>(DagError::NoRoots) <==> (arena_wf(nodes@)
                && !has_root_cand(nodes@)),
            forall|c: usize|
                r == Err::<Dag<T>, DagError>(DagError::CycleDetected(c)) ==> arena_wf(nodes@)
                    && on_cycle(dnts_adj(nodes@), c) && (exists|i: int|
                    #[trigger] cand_root(nodes@, i) && reaches(dnts_adj(nodes@), i as usize, c)),
            r matches Ok(d) ==> {
                &&& d.wf()
                &&& d.nodes@ == nodes@
                &&& d.present@.len() == nodes@.len()
                &&& (forall|i: int| 0 <= i < nodes@.len() ==> d.is_present(i))
                &&& d.closed()
            },
    {
        let ghost ns = nodes@;
        if !check_arena(&nodes) {
            return Err(DagError::NodeNotRegistered);
        }
        let n = nodes.len();
        let mut cands: Vec<usize> = Vec::new();
        let mut i: usize = 0;
        while i < n
            invariant
                i <= n,
                n == ns.len(),
                nodes@ == ns,
                forall|k1: int, k2: int|
                    0 <= k1 < k2 < cands@.len() ==> (#[trigger] cands@[k1]) < (
                    #[trigger] cands@[k2]),
                forall|k: int|
                    0 <= k < cands@.len() ==> cand_root(ns, (#[trigger] cands@[k]) as int)
                        && cands@[k] < i,
                forall|x: int| 0 <= x < i && #[trigger] cand_root(ns, x) ==> cands@.contains(
                    x as usize,
                ),
            decreases n - i,
        {
            if nodes[i].dependencies.len() == 0 {
                cands.push(i);
                proof {
                    broadcast use vstd::seq_lib::lemma_seq_contains_after_push;

                }
            } else {
                proof {
                    broadcast use vstd::seq_lib::lemma_seq_contains_after_push;

                    assert(!cand_root(ns, i as int));
                }
            }
            i += 1;
        }
        proof {
            assert(cands@.no_duplicates()) by {
                assert forall|k1: int, k2: int|
                    0 <= k1 < cands@.len() && 0 <= k2 < cands@.len() && k1 != k2 implies cands@[k1]
                    != cands@[k2] by {
                    if k1 < k2 {
                    } else {
                        assert(cands@[k2] < cands@[k1]);
                    }
                }
            }
        }
        if cands.len() == 0 {
            proof {
                assert(!has_root_cand(ns)) by {
                    if has_root_cand(ns) {
                        let x = choose|x: int| 0 <= x < ns.len() && ns[x].dependencies@.len() == 0;
                        assert(cand_root(ns, x));
                        assert(cands@.contains(x as usize));
                    }
                }
            }
            return Err(DagError::NoRoots);
        }
        let radj = dnts_lists(&nodes);
        match find_reachable_cycle(&radj, &cands) {
            Some(c) => {
                proof {
                    assert(on_cycle(dnts_adj(ns), c));
                    let k = choose|k: int|
                        0 <= k < cands@.len() && reaches(view_adj(radj@), #[trigger] cands@[k], c);
                    assert(cand_root(ns, cands@[k] as int));
                    assert(!validates(ns));
                }
                Err(DagError::CycleDetected(c))
            },
            None => {
                proof {
                    assert(validates(ns)) by {
                        assert forall|x: int| #[trigger]
                            cand_root(ns, x) implies !cycle_reachable_from(
                            dnts_adj(ns),
                            x as usize,
                        ) by {
                            assert(cands@.contains(x as usize));
                            let k = choose|k: int|
                                0 <= k < cands@.len() && cands@[k] == x as usize;
                            assert(!cycle_reachable_from(view_adj(radj@), cands@[k]));
                        }
                    }
                    assert(cands@.len() > 0);
                    assert(cand_root(ns, cands@[0] as int));
                    assert(has_root_cand(ns));
                }
                let mut present: Vec<bool> = Vec::new();
                let mut j: usize = 0;
                while j < n
                    invariant
                        j <= n,
                        present@.len() == j,
                        forall|k: int| 0 <= k < j ==> (#[trigger] present@[k]) == true,
                    decreases n - j,
                {
                    present.push(true);
                    j += 1;
                }
                let d = Dag { nodes, present, roots: cands };
                proof {
                    assert(d.wf()) by {
                        assert forall|k: int|
                            0 <= k < d.roots@.len() implies d.is_root_id(
                            (#[trigger] d.roots@[k]) as int,
                        ) by {
                            assert(cand_root(ns, d.roots@[k] as int));
                        }
                        assert forall|x: int|
                            0 <= x < d.nodes@.len() && #[trigger] d.is_root_id(
                                x,
                            ) implies d.roots@.contains(x as usize) by {
                            assert(cand_root(ns, x));
                        }
                    }
                }
                Ok(d)
            },
        }
    }

    /// Whether `node` can be registered: its edge lists are
    /// duplicate-free and name only current members.
    pub open spec fn insertable(self, node: Node<T>) -> bool {
        &&& node.dependencies@.no_duplicates()
        &&& node.dependants@.no_duplicates()
        &&& forall|j: int|
            0 <= j < node.dependencies@.len() ==> self.is_present(
                (#[trigger] node.dependencies@[j]) as int,
            )
        &&& forall|j: int|
            0 <= j < node.dependants@.len() ==> self.is_present(
                (#[trigger] node.dependants@[j]) as int,
            )
    }

    /// The dependant edge lists after `node` is registered under the
    /// next free id.
    pub open spec fn insert_radj(self, node: Node<T>) -> Seq<Seq<usize>> {
        let n = self.nodes@.len() as int;
        Seq::new(
            self.nodes@.len() + 1,
            |i: int|
                if i == n {
                    node.dependants@
                } else if node.dependencies@.contains(i as usize) {
                    self.nodes@[i].dependants@.push(self.nodes@.len() as usize)
                } else {
                    self.nodes@[i].dependants@
                },
        )
    }

    /// The dependency edge lists after `node` is registered under the
    /// next free id.
    pub open spec fn insert_dadj(self, node: Node<T>) -> Seq<Seq<usize>> {
        let n = self.nodes@.len() as int;
        Seq::new(
            self.nodes@.len() + 1,
            |i: int|
                if i == n {
                    node.dependencies@
                } else if node.dependants@.contains(i as usize) {
                    self.nodes@[i].dependencies@.push(self.nodes@.len() as usize)
                } else {
                    self.nodes@[i].dependencies@
                },
        )
    }

    /// Registers a new node whose edges name existing members,
    /// completes the matching half of each of its edges, recomputes the
    /// root set, and revalidates acyclicity incrementally starting from
    /// the new node.  Fails with `NodeNotRegistered` if an edge names a
    /// non-member or is duplicated, and with `CycleDetected` if the new
    /// node would close a cycle; a rejected call commits nothing.
    #[verifier::loop_isolation(false)]
    #[verifier::rlimit(60)]
    pub fn insert(&mut self, node: Node<T>) -> (r: Result<usize, DagError>)
        requires
            old(self).wf(),
        ensures
            final(self).wf(),
            r is Ok <==> (old(self).insertable(node) && !cycle_reachable_from(
                old(self).insert_radj(node),
                old(self).nodes@.len() as usize,
            )),
            r is Err ==> *final(self) == *old(self),
            r is Err ==> (r == Err::<usize, DagError>(DagError::NodeNotRegistered) || r matches Err(
                DagError::CycleDetected(_),
            )),
            r == Err::<usize, DagError>(DagError::NodeNotRegistered) <==> !old(self).insertable(
                node,
            ),
            forall|c: usize|
                r == Err::<usize, DagError>(DagError::CycleDetected(c)) ==> on_cycle(
                    old(self).insert_radj(node),
                    c,
                ) && reaches(
                    old(self).insert_radj(node),
                    old(self).nodes@.len() as usize,
                    c,
                ),
            r matches Ok(id) ==> ({
                &&& id == old(self).nodes@.len()
                &&& final(self).nodes@.len() == old(self).nodes@.len() + 1
                &&& final(self).present@ =~= old(self).present@.push(true)
                &&& (forall|i: int|
                    0 <= i < old(self).nodes@.len() ==> (#[trigger] final(self).nodes@[i]).value
                        == old(self).nodes@[i].value)
                &&& final(self).nodes@[id as int].value == node.value
                &&& dnts_adj(final(self).nodes@) =~~= old(self).insert_radj(node)
                &&& deps_adj(final(self).nodes@) =~~= old(self).insert_dadj(node)
            }),
    {
        broadcast use vstd::seq_lib::lemma_seq_contains_after_push;

        let n = self.nodes.len();
        let nid = n;
        if !no_dup_ids(&node.dependencies) || !no_dup_ids(&node.dependants) {
            return Err(DagError::NodeNotRegistered);
        }
        let mut v: usize = 0;
        while v < node.dependencies.len()
            invariant
                v <= node.dependencies@.len(),
                forall|j: int|
                    0 <= j < v ==> self.is_present((#[trigger] node.dependencies@[j]) as int),
            decreases node.dependencies@.len() - v,
        {
            let d = node.dependencies[v];
            if d >= n {
                return Err(DagError::NodeNotRegistered);
            }
            if !self.present[d] {
                return Err(DagError::NodeNotRegistered);
            }
            v += 1;
        }
        let mut v2: usize = 0;
        while v2 < node.dependants.len()
            invariant
                v2 <= node.dependants@.len(),
                forall|j: int|
                    0 <= j < v2 ==> self.is_present((#[trigger] node.dependants@[j]) as int),
            decreases node.dependants@.len() - v2,
        {
            let p = node.dependants[v2];
            if p >= n {
                return Err(DagError::NodeNotRegistered);
            }
            if !self.present[p] {
                return Err(DagError::NodeNotRegistered);
            }
            v2 += 1;
        }
        let ghost g0 = *self;
        let ghost nd = node;
        let ghost radj = g0.insert_radj(nd);
        assert(g0.insertable(nd));
        // the candidate dependant adjacency with the new node wired in
        let mut cand: Vec<Vec<usize>> = Vec::new();
        let mut i: usize = 0;
        while i < n
            invariant
                i <= n,
                cand@.len() == i,
                forall|k: int| 0 <= k < i ==> (#[trigger] cand@[k])@ =~= radj[k],
            decreases n - i,
        {
            let mut row = copy_ids(&self.nodes[i].dependants);
            if contains_id(&node.dependencies, i) {
                row.push(nid);
            }
            cand.push(row);
            i += 1;
        }
        cand.push(copy_ids(&node.dependants));
        proof {
            assert(view_adj(cand@) =~~= radj);
            assert(crate::cycle::adj_wf(radj)) by {
                assert forall|x: int, y: int|
                    0 <= x < radj.len() && 0 <= y < radj[x].len() implies (#[trigger] radj[x][y])
                    < radj.len() by {
                    if x == n as int {
                        assert(radj[x][y] == nd.dependants@[y]);
                        assert(g0.is_present(nd.dependants@[y] as int));
                    } else if nd.dependencies@.contains(x as usize) && y == radj[x].len() - 1 {
                        assert(radj[x][y] == nid);
                    } else {
                        assert(radj[x][y] == dnts_adj(g0.nodes@)[x][y]);
                    }
                }
            }
        }
        let starts = vec![nid];
        match find_reachable_cycle(&cand, &starts) {
            Some(c) => {
                proof {
                    assert(reaches(radj, starts@[0], c));
                }
                Err(DagError::CycleDetected(c))
            },
            None => {
                self.nodes.push(node);
                self.present.push(true);
                let m1 = self.nodes[nid].dependencies.len();
                let mut j: usize = 0;
                while j < m1
                    invariant
                        j <= m1,
                        m1 == nd.dependencies@.len(),
                        self.present@ == g0.present@.push(true),
                        self.roots@ == g0.roots@,
                        self.nodes@.len() == n + 1,
                        self.nodes@[n as int] == nd,
                        forall|i2: int|
                            0 <= i2 < n ==> (#[trigger] self.nodes@[i2]).value == g0.nodes@[
                            i2
                        ].value && self.nodes@[i2].dependencies@ == g0.nodes@[i2].dependencies@,
                        forall|i2: int|
                            0 <= i2 < n ==> (#[trigger] self.nodes@[i2]).dependants@ == (
                            if nd.dependencies@.subrange(0, j as int).contains(i2 as usize) {
                                g0.nodes@[i2].dependants@.push(nid)
                            } else {
                                g0.nodes@[i2].dependants@
                            }),
                    decreases m1 - j,
                {
                    let d = self.nodes[nid].dependencies[j];
                    proof {
                        assert(nd.dependencies@[j as int] == d);
                        assert(g0.is_present(d as int));
                        assert(d < n);
                        assert(nd.dependencies@.subrange(0, j + 1) == nd.dependencies@.subrange(
                            0,
                            j as int,
                        ).push(d));
                        assert(!nd.dependencies@.subrange(0, j as int).contains(d)) by {
                            if nd.dependencies@.subrange(0, j as int).contains(d) {
                                let k = choose|k: int|
                                    0 <= k < j && nd.dependencies@.subrange(0, j as int)[k] == d;
                                assert(nd.dependencies@[k] == nd.dependencies@[j as int]);
                            }
                        }
                    }
                    self.nodes[d].dependants.push(nid);
                    j += 1;
                }
                proof {
                    assert(nd.dependencies@.subrange(0, m1 as int) == nd.dependencies@);
                }
                let m2 = self.nodes[nid].dependants.len();
                let mut j2: usize = 0;
                while j2 < m2
                    invariant
                        j2 <= m2,
                        m2 == nd.dependants@.len(),
                        self.present@ == g0.present@.push(true),
                        self.roots@ == g0.roots@,
                        self.nodes@.len() == n + 1,
                        self.nodes@[n as int] == nd,
                        forall|i2: int|
                            0 <= i2 < n ==> (#[trigger] self.nodes@[i2]).value == g0.nodes@[
                            i2
                        ].value,
                        forall|i2: int|
                            0 <= i2 < n ==> (#[trigger] self.nodes@[i2]).dependants@ == (
                            if nd.dependencies@.contains(i2 as usize) {
                                g0.nodes@[i2].dependants@.push(nid)
                            } else {
                                g0.nodes@[i2].dependants@
                            }),
                        forall|i2: int|
                            0 <= i2 < n ==> (#[trigger] self.nodes@[i2]).dependencies@ == (
                            if nd.dependants@.subrange(0, j2 as int).contains(i2 as usize) {
                                g0.nodes@[i2].dependencies@.push(nid)
                            } else {
                                g0.nodes@[i2].dependencies@
                            }),
                    decreases m2 - j2,
                {
                    let p = self.nodes[nid].dependants[j2];
                    proof {
                        assert(nd.dependants@[j2 as int] == p);
                        assert(g0.is_present(p as int));
                        assert(p < n);
                        assert(nd.dependants@.subrange(0, j2 + 1) == nd.dependants@.subrange(
                            0,
                            j2 as int,
                        ).push(p));
                        assert(!nd.dependants@.subrange(0, j2 as int).contains(p)) by {
                            if nd.dependants@.subrange(0, j2 as int).contains(p) {
                                let k = choose|k: int|
                                    0 <= k < j2 && nd.dependants@.subrange(0, j2 as int)[k] == p;
                                assert(nd.dependants@[k] == nd.dependants@[j2 as int]);
                            }
                        }
                    }
                    self.nodes[p].dependencies.push(nid);
                    j2 += 1;
                }
                proof {
                    assert(nd.dependencies@.subrange(0, m1 as int) == nd.dependencies@);
                    assert(nd.dependants@.subrange(0, m2 as int) == nd.dependants@);
                }
                // every dependant of the new node stops being a root
                let m3 = self.nodes[nid].dependants.len();
                let mut j3: usize = 0;
                while j3 < m3
                    invariant
                        j3 <= m3,
                        m3 == nd.dependants@.len(),
                        self.present@ == g0.present@.push(true),
                        self.nodes@.len() == n + 1,
                        self.nodes@[n as int] == nd,
                        forall|i2: int|
                            0 <= i2 < n ==> (#[trigger] self.nodes@[i2]).value == g0.nodes@[
                            i2
                        ].value,
                        forall|i2: int|
                            0 <= i2 < n ==> (#[trigger] self.nodes@[i2]).dependants@ == (
                            if nd.dependencies@.contains(i2 as usize) {
                                g0.nodes@[i2].dependants@.push(nid)
                            } else {
                                g0.nodes@[i2].dependants@
                            }),
                        forall|i2: int|
                            0 <= i2 < n ==> (#[trigger] self.nodes@[i2]).dependencies@ == (
                            if nd.dependants@.contains(i2 as usize) {
                                g0.nodes@[i2].dependencies@.push(nid)
                            } else {
                                g0.nodes@[i2].dependencies@
                            }),
                        self.roots@.no_duplicates(),
                        forall|k: int|
                            0 <= k < self.roots@.len() ==> (#[trigger] self.roots@[k]) < n,
                        forall|x: usize|
                            #[trigger] self.roots@.contains(x) <==> (g0.roots@.contains(x)
                                && !nd.dependants@.subrange(0, j3 as int).contains(x)),
                    decreases m3 - j3,
                {
                    let p = self.nodes[nid].dependants[j3];
                    let ghost rpre = self.roots@;
                    proof {
                        assert(nd.dependants@[j3 as int] == p);
                        assert(nd.dependants@.subrange(0, j3 + 1) == nd.dependants@.subrange(
                            0,
                            j3 as int,
                        ).push(p));
                    }
                    remove_id(&mut self.roots, p);
                    proof {
                        lemma_filter_no_dup(rpre, keep_other(p));
                        assert forall|k: int|
                            0 <= k < self.roots@.len() implies (#[trigger] self.roots@[k]) < n by {
                            let x = self.roots@[k];
                            assert(self.roots@.contains(x));
                            Seq::lemma_filter_contains_rev(rpre, keep_other(p), x);
                            let kk = choose|kk: int| 0 <= kk < rpre.len() && rpre[kk] == x;
                        }
                        assert forall|x: usize|
                            #[trigger] self.roots@.contains(x) implies (g0.roots@.contains(x)
                                && !nd.dependants@.subrange(0, j3 + 1).contains(x)) by {
                            Seq::lemma_filter_contains_rev(rpre, keep_other(p), x);
                            assert(x != p);
                        }
                        assert forall|x: usize|
                            (g0.roots@.contains(x) && !nd.dependants@.subrange(
                                0,
                                j3 + 1,
                            ).contains(x)) implies #[trigger] self.roots@.contains(x) by {
                            assert(rpre.contains(x));
                            assert(x != p);
                            let kk = choose|kk: int| 0 <= kk < rpre.len() && rpre[kk] == x;
                            assert(keep_other(p)(rpre[kk]));
                            Seq::lemma_filter_contains(rpre, keep_other(p), kk);
                        }
                    }
                    j3 += 1;
                }
                proof {
                    assert(nd.dependants@.subrange(0, m3 as int) == nd.dependants@);
                }
                let has_deps = self.nodes[nid].dependencies.len() > 0;
                if !has_deps {
                    proof {
                        assert(!self.roots@.contains(nid)) by {
                            if self.roots@.contains(nid) {
                                assert(g0.roots@.contains(nid));
                                let kk = choose|kk: int|
                                    0 <= kk < g0.roots@.len() && g0.roots@[kk] == nid;
                                assert(g0.is_root_id(nid as int));
                            }
                        }
                        lemma_push_no_dup_ids(self.roots@, nid);
                    }
                    self.roots.push(nid);
                }
                proof {
                    let g2 = *self;
                    let ns2 = g2.nodes@;
                    assert(dnts_adj(ns2) =~~= radj);
                    assert(deps_adj(ns2) =~~= g0.insert_dadj(nd));
                    // structural well-formedness of the grown arena
                    assert(adj_wf(deps_adj(ns2))) by {
                        assert forall|x: int, y: int|
                            0 <= x < deps_adj(ns2).len() && 0 <= y < deps_adj(ns2)[x].len()
                            implies (#[trigger] deps_adj(ns2)[x][y]) < deps_adj(ns2).len() by {
                            if x == n as int {
                                assert(deps_adj(ns2)[x][y] == nd.dependencies@[y]);
                                assert(g0.is_present(nd.dependencies@[y] as int));
                            } else if nd.dependants@.contains(x as usize) && y == deps_adj(
                                ns2,
                            )[x].len() - 1 {
                                assert(deps_adj(ns2)[x][y] == nid);
                            } else {
                                assert(deps_adj(ns2)[x][y] == deps_adj(g0.nodes@)[x][y]);
                            }
                        }
                    }
                    assert(adj_wf(dnts_adj(ns2)));
                    assert(edges_no_dup(ns2)) by {
                        assert forall|x: int|
                            0 <= x < ns2.len() implies (#[trigger] ns2[x].dependencies@)
                            .no_duplicates() && ns2[x].dependants@.no_duplicates() by {
                            if x == n as int {
                            } else {
                                assert(g0.nodes@[x].dependencies@.no_duplicates());
                                assert(g0.nodes@[x].dependants@.no_duplicates());
                                if nd.dependants@.contains(x as usize) {
                                    assert(!g0.nodes@[x].dependencies@.contains(nid)) by {
                                        if g0.nodes@[x].dependencies@.contains(nid) {
                                            assert(edge(deps_adj(g0.nodes@), x as usize, nid));
                                        }
                                    }
                                    lemma_push_no_dup_ids(g0.nodes@[x].dependencies@, nid);
                                }
                                if nd.dependencies@.contains(x as usize) {
                                    assert(!g0.nodes@[x].dependants@.contains(nid)) by {
                                        if g0.nodes@[x].dependants@.contains(nid) {
                                            assert(edge(dnts_adj(g0.nodes@), x as usize, nid));
                                        }
                                    }
                                    lemma_push_no_dup_ids(g0.nodes@[x].dependants@, nid);
                                }
                            }
                        }
                    }
                    // pairing among members
                    assert forall|a: usize, b: usize|
                        g2.is_present(a as int) && g2.is_present(b as int) implies ((
                    #[trigger] edge(deps_adj(ns2), a, b)) <==> (#[trigger] edge(
                        dnts_adj(ns2),
                        b,
                        a,
                    ))) by {
                        if edge(deps_adj(ns2), a, b) {
                            if a == nid {
                                assert(nd.dependencies@.contains(b));
                                assert(dnts_adj(ns2)[b as int] == g0.nodes@[
                                    b as int
                                ].dependants@.push(nid));
                                assert(edge(dnts_adj(ns2), b, a));
                            } else if b == nid {
                                assert(ns2[a as int].dependencies@.contains(nid));
                                assert(nd.dependants@.contains(a)) by {
                                    if !nd.dependants@.contains(a) {
                                        assert(ns2[a as int].dependencies@ == g0.nodes@[
                                            a as int
                                        ].dependencies@);
                                        assert(edge(deps_adj(g0.nodes@), a, nid));
                                    }
                                }
                                assert(dnts_adj(ns2)[nid as int] == nd.dependants@);
                                assert(edge(dnts_adj(ns2), nid, a));
                            } else {
                                assert(edge(deps_adj(g0.nodes@), a, b)) by {
                                    if nd.dependants@.contains(a) {
                                        assert(ns2[a as int].dependencies@ == g0.nodes@[
                                            a as int
                                        ].dependencies@.push(nid));
                                    }
                                }
                                assert(g0.is_present(a as int) && g0.is_present(b as int));
                                assert(edge(dnts_adj(g0.nodes@), b, a));
                                assert(edge(dnts_adj(ns2), b, a)) by {
                                    if nd.dependencies@.contains(b) {
                                        assert(ns2[b as int].dependants@ == g0.nodes@[
                                            b as int
                                        ].dependants@.push(nid));
                                    }
                                }
                            }
                        }
                        if edge(dnts_adj(ns2), b, a) {
                            if b == nid {
                                assert(nd.dependants@.contains(a));
                                assert(ns2[a as int].dependencies@ == g0.nodes@[
                                    a as int
                                ].dependencies@.push(nid));
                                assert(edge(deps_adj(ns2), a, nid));
                            } else if a == nid {
                                assert(ns2[b as int].dependants@.contains(nid));
                                assert(nd.dependencies@.contains(b)) by {
                                    if !nd.dependencies@.contains(b) {
                                        assert(ns2[b as int].dependants@ == g0.nodes@[
                                            b as int
                                        ].dependants@);
                                        assert(edge(dnts_adj(g0.nodes@), b, nid));
                                    }
                                }
                                assert(edge(deps_adj(ns2), nid, b));
                            } else {
                                assert(edge(dnts_adj(g0.nodes@), b, a)) by {
                                    if nd.dependencies@.contains(b) {
                                        assert(ns2[b as int].dependants@ == g0.nodes@[
                                            b as int
                                        ].dependants@.push(nid));
                                    }
                                }
                                assert(g0.is_present(a as int) && g0.is_present(b as int));
                                assert(edge(deps_adj(g0.nodes@), a, b));
                                assert(edge(deps_adj(ns2), a, b)) by {
                                    if nd.dependants@.contains(a) {
                                        assert(ns2[a as int].dependencies@ == g0.nodes@[
                                            a as int
                                        ].dependencies@.push(nid));
                                    }
                                }
                            }
                        }
                    }
                    // the root set is exact
                    assert forall|k: int|
                        0 <= k < g2.roots@.len() implies g2.is_root_id(
                        (#[trigger] g2.roots@[k]) as int,
                    ) by {
                        let x = g2.roots@[k];
                        assert(g2.roots@.contains(x));
                        if x == nid {
                            assert(g2.is_present(nid as int));
                            assert(nd.dependencies@.len() == 0);
                        } else {
                            assert(g0.roots@.contains(x) && !nd.dependants@.contains(x));
                            let kk = choose|kk: int|
                                0 <= kk < g0.roots@.len() && g0.roots@[kk] == x;
                            assert(g0.is_root_id(x as int));
                            assert(ns2[x as int].dependencies@ == g0.nodes@[
                                x as int
                            ].dependencies@);
                        }
                    }
                    assert forall|x: int|
                        0 <= x < ns2.len() && #[trigger] g2.is_root_id(x) implies g2.roots@.contains(
                        x as usize,
                    ) by {
                        if x == n as int {
                            assert(nd.dependencies@.len() == 0);
                            assert(g2.roots@.contains(nid));
                        } else {
                            assert(!nd.dependants@.contains(x as usize)) by {
                                if nd.dependants@.contains(x as usize) {
                                    assert(ns2[x].dependencies@ == g0.nodes@[
                                        x
                                    ].dependencies@.push(nid));
                                    assert(ns2[x].dependencies@.len() > 0);
                                }
                            }
                            assert(ns2[x].dependencies@ == g0.nodes@[x].dependencies@);
                            assert(g0.is_root_id(x));
                            assert(g0.roots@.contains(x as usize));
                        }
                    }
                }
                Ok(nid)
            },
        }
    }

    /// Retires `to_remove` from the graph: detaches it from every
    /// dependant's dependency set, drops it from the member and root
    /// sets, and promotes to the root set every member whose last
    /// blocking edge was just removed.
    #[verifier::loop_isolation(false)]
    pub fn remove(&mut self, to_remove: usize)
        requires
            old(self).wf(),
            old(self).is_present(to_remove as int),
        ensures
            final(self).wf(),
            final(self).nodes@.len() == old(self).nodes@.len(),
            final(self).present@ =~= old(self).present@.update(to_remove as int, false),
            forall|i: int|
                0 <= i < final(self).nodes@.len() ==> (#[trigger] final(self).nodes@[i]).value
                    == old(self).nodes@[i].value && final(self).nodes@[i].dependants@ == old(
                    self,
                ).nodes@[i].dependants@,
            deps_adj(final(self).nodes@) =~~= detach_adj(
                deps_adj(old(self).nodes@),
                old(self).nodes@[to_remove as int].dependants@,
                to_remove,
            ),
            old(self).closed() ==> final(self).closed(),
    {
        broadcast use vstd::seq_lib::group_filter_ensures;
        broadcast use vstd::seq_lib::lemma_seq_contains_after_push;

        let ghost g0 = *self;
        let ghost ns0 = self.nodes@;
        let ghost dn = ns0[to_remove as int].dependants@;
        let ghost pred = keep_other(to_remove);
        Node::remove(&mut self.nodes, to_remove);
        let ghost ns1 = self.nodes@;
        self.present.set(to_remove, false);
        remove_id(&mut self.roots, to_remove);
        let ghost r0 = self.roots@;
        proof {
            lemma_filter_no_dup(g0.roots@, pred);
            assert(ns0[to_remove as int].dependencies@.no_duplicates() && ns0[
                to_remove as int
            ].dependants@.no_duplicates()) by {
                assert(edges_no_dup(ns0));
            }
            assert forall|k: int|
                0 <= k < self.roots@.len() implies (#[trigger] self.roots@[k]) < ns1.len() by {
                let x = self.roots@[k];
                assert(r0.contains(x));
                Seq::lemma_filter_contains_rev(g0.roots@, pred, x);
                let kk = choose|kk: int| 0 <= kk < g0.roots@.len() && g0.roots@[kk] == x;
                assert(g0.is_root_id(x as int));
            }
            assert forall|i: int|
                0 <= i < ns1.len() implies #[trigger] ns1[i].dependencies@ == (
            if dn.contains(i as usize) {
                ns0[i].dependencies@.filter(pred)
            } else {
                ns0[i].dependencies@
            }) by {
                assert(deps_adj(ns1)[i] == detach_adj(deps_adj(ns0), dn, to_remove)[i]);
            }
        }
        let m = self.nodes[to_remove].dependants.len();
        let mut j: usize = 0;
        while j < m
            invariant
                self.nodes@ == ns1,
                self.present@ == g0.present@.update(to_remove as int, false),
                j <= m,
                m == dn.len(),
                self.roots@.no_duplicates(),
                forall|k: int| 0 <= k < self.roots@.len() ==> (#[trigger] self.roots@[k]) < ns1.len(),
                forall|x: usize|
                    #[trigger] self.roots@.contains(x) <==> (r0.contains(x) || (dn.subrange(
                        0,
                        j as int,
                    ).contains(x) && self.is_present(x as int) && ns1[x as int].dependencies@.len()
                        == 0)),
            decreases m - j,
        {
            let p = self.nodes[to_remove].dependants[j];
            proof {
                assert(dn[j as int] == p);
                assert(dnts_adj(ns0)[to_remove as int][j as int] == p);
                assert(p < ns1.len());
                assert(dn.subrange(0, j + 1) == dn.subrange(0, j as int).push(p));
            }
            if self.present[p] && self.nodes[p].dependencies.len() == 0 {
                proof {
                    // p was blocked on to_remove before the detach, so it
                    // is in neither the old root set nor the promoted set
                    assert(p != to_remove);
                    assert(g0.is_present(p as int));
                    assert(edge(dnts_adj(ns0), to_remove, p));
                    assert(edge(deps_adj(ns0), p, to_remove));
                    assert(ns0[p as int].dependencies@.len() > 0);
                    assert(!g0.is_root_id(p as int));
                    assert(!g0.roots@.contains(p)) by {
                        if g0.roots@.contains(p) {
                            let k = choose|k: int|
                                0 <= k < g0.roots@.len() && g0.roots@[k] == p;
                            assert(g0.is_root_id(p as int));
                        }
                    }
                    assert(!r0.contains(p)) by {
                        if r0.contains(p) {
                            Seq::lemma_filter_contains_rev(g0.roots@, pred, p);
                        }
                    }
                    assert(!dn.subrange(0, j as int).contains(p)) by {
                        if dn.subrange(0, j as int).contains(p) {
                            let k = choose|k: int| 0 <= k < j && dn.subrange(0, j as int)[k] == p;
                            assert(dn[k] == dn[j as int]);
                            assert(dn.no_duplicates());
                        }
                    }
                    assert(!self.roots@.contains(p));
                }
                let ghost rpre = self.roots@;
                self.roots.push(p);
                proof {
                    assert(self.roots@ == rpre.push(p));
                    assert(forall|k: int|
                        0 <= k < rpre.len() ==> self.roots@[k] == (#[trigger] rpre[k]));
                    assert(self.roots@.no_duplicates()) by {
                        let s = self.roots@;
                        assert forall|k1: int, k2: int|
                            0 <= k1 < s.len() && 0 <= k2 < s.len() && k1 != k2 implies s[k1]
                            != s[k2] by {
                            if k1 < rpre.len() && k2 < rpre.len() {
                            } else if k1 == rpre.len() && k2 < rpre.len() {
                                assert(rpre.contains(rpre[k2]));
                            } else if k2 == rpre.len() && k1 < rpre.len() {
                                assert(rpre.contains(rpre[k1]));
                            }
                        }
                    }
                    assert forall|x: usize| #[trigger]
                        self.roots@.contains(x) implies (r0.contains(x) || (dn.subrange(
                        0,
                        j + 1,
                    ).contains(x) && self.is_present(x as int) && ns1[x as int].dependencies@.len()
                        == 0)) by {
                        if x == p {
                            assert(dn.subrange(0, j + 1).contains(p));
                        } else {
                            assert(rpre.contains(x));
                            if !r0.contains(x) {
                                assert(dn.subrange(0, j as int).contains(x));
                            }
                        }
                    }
                    assert forall|x: usize|
                        (r0.contains(x) || (dn.subrange(0, j + 1).contains(x) && self.is_present(
                            x as int,
                        ) && ns1[x as int].dependencies@.len() == 0)) implies #[trigger] self
                        .roots@.contains(x) by {
                        if r0.contains(x) {
                            assert(rpre.contains(x));
                        } else if x != p {
                            assert(dn.subrange(0, j as int).contains(x));
                            assert(rpre.contains(x));
                        }
                    }
                }
            } else {
                proof {
                    assert forall|x: usize| #[trigger]
                        self.roots@.contains(x) implies (r0.contains(x) || (dn.subrange(
                        0,
                        j + 1,
                    ).contains(x) && self.is_present(x as int) && ns1[x as int].dependencies@.len()
                        == 0)) by {}
                    assert forall|x: usize|
                        (r0.contains(x) || (dn.subrange(0, j + 1).contains(x) && self.is_present(
                            x as int,
                        ) && ns1[x as int].dependencies@.len() == 0)) implies #[trigger] self
                        .roots@.contains(x) by {
                        if !r0.contains(x) && dn.subrange(0, j + 1).contains(x) && x != p {
                            assert(dn.subrange(0, j as int).contains(x));
                        }
                    }
                }
            }
            j += 1;
        }
        let nn = self.nodes.len();
        proof {
            assert(dn.subrange(0, m as int) == dn);
            // membership of the final root set
            assert forall|x: int|
                0 <= x < self.nodes@.len() && #[trigger] self.is_root_id(
                    x,
                ) implies self.roots@.contains(x as usize) by {
                let xu = x as usize;
                assert(x < nn as int);
                assert(xu as int == x);
                assert(self.is_present(x));
                assert(x != to_remove as int);
                assert(g0.is_present(x));
                assert(self.roots@.contains(xu) <==> (r0.contains(xu) || (dn.subrange(
                    0,
                    j as int,
                ).contains(xu) && self.is_present(xu as int) && ns1[xu as int].dependencies@.len()
                    == 0)));
                if dn.contains(xu) {
                    assert(dn.subrange(0, j as int).contains(xu));
                } else {
                    assert(ns1[x].dependencies@ == ns0[x].dependencies@);
                    assert(g0.is_root_id(x));
                    assert(g0.roots@.contains(xu));
                    assert(r0.contains(xu)) by {
                        let k = choose|k: int| 0 <= k < g0.roots@.len() && g0.roots@[k] == xu;
                        assert(pred(g0.roots@[k]));
                        Seq::lemma_filter_contains(g0.roots@, pred, k);
                    }
                }
            }
            assert forall|k: int|
                0 <= k < self.roots@.len() implies self.is_root_id(
                (#[trigger] self.roots@[k]) as int,
            ) by {
                let x = self.roots@[k];
                assert(self.roots@.contains(x));
                assert(self.roots@.contains(x) <==> (r0.contains(x) || (dn.subrange(
                    0,
                    j as int,
                ).contains(x) && self.is_present(x as int) && ns1[x as int].dependencies@.len()
                    == 0)));
                if r0.contains(x) {
                    Seq::lemma_filter_contains_rev(g0.roots@, pred, x);
                    let kk = choose|kk: int| 0 <= kk < g0.roots@.len() && g0.roots@[kk] == x;
                    assert(g0.is_root_id(x as int));
                    assert(x != to_remove);
                    assert(self.is_present(x as int));
                    if dn.contains(x) {
                        assert(ns1[x as int].dependencies@ == ns0[x as int].dependencies@.filter(
                            pred,
                        ));
                        assert(ns1[x as int].dependencies@.len() == 0);
                    } else {
                        assert(ns1[x as int].dependencies@ == ns0[x as int].dependencies@);
                    }
                } else {
                    assert(self.is_present(x as int) && ns1[x as int].dependencies@.len() == 0);
                }
            }
            // pairing among the remaining members
            assert forall|a: usize, b: usize|
                self.is_present(a as int) && self.is_present(b as int) implies ((#[trigger] edge(
                deps_adj(self.nodes@),
                a,
                b,
            )) <==> (#[trigger] edge(dnts_adj(self.nodes@), b, a))) by {
                assert(a != to_remove && b != to_remove);
                assert(g0.is_present(a as int) && g0.is_present(b as int));
                if edge(deps_adj(self.nodes@), a, b) {
                    assert(ns1[a as int].dependencies@.contains(b));
                    assert(ns0[a as int].dependencies@.contains(b)) by {
                        if dn.contains(a) {
                            Seq::lemma_filter_contains_rev(
                                ns0[a as int].dependencies@,
                                pred,
                                b,
                            );
                        }
                    }
                    assert(edge(deps_adj(ns0), a, b));
                    assert(edge(dnts_adj(ns0), b, a));
                    assert(edge(dnts_adj(self.nodes@), b, a));
                }
                if edge(dnts_adj(self.nodes@), b, a) {
                    assert(edge(dnts_adj(ns0), b, a));
                    assert(edge(deps_adj(ns0), a, b));
                    assert(ns0[a as int].dependencies@.contains(b));
                    assert(ns1[a as int].dependencies@.contains(b)) by {
                        if dn.contains(a) {
                            let k = choose|k: int|
                                0 <= k < ns0[a as int].dependencies@.len() && ns0[
                                    a as int
                                ].dependencies@[k] == b;
                            assert(pred(b));
                            Seq::lemma_filter_contains(ns0[a as int].dependencies@, pred, k);
                        }
                    }
                    assert(edge(deps_adj(self.nodes@), a, b));
                }
            }
            // in-range and duplicate-free edge lists
            assert(dnts_adj(ns1) =~~= dnts_adj(ns0));
            assert(adj_wf(dnts_adj(ns1)));
            assert(adj_wf(deps_adj(ns1))) by {
                assert forall|i: int, j2: int|
                    0 <= i < deps_adj(ns1).len() && 0 <= j2 < deps_adj(ns1)[i].len() implies (
                #[trigger] deps_adj(ns1)[i][j2]) < deps_adj(ns1).len() by {
                    if dn.contains(i as usize) {
                        let b = deps_adj(ns1)[i][j2];
                        assert(ns1[i].dependencies@.contains(b));
                        Seq::lemma_filter_contains_rev(ns0[i].dependencies@, pred, b);
                        let k = choose|k: int|
                            0 <= k < ns0[i].dependencies@.len() && ns0[i].dependencies@[k] == b;
                        assert(deps_adj(ns0)[i][k] == b);
                    } else {
                        assert(deps_adj(ns1)[i][j2] == deps_adj(ns0)[i][j2]);
                    }
                }
            }
            assert(edges_no_dup(ns1)) by {
                assert forall|i: int|
                    0 <= i < ns1.len() implies (#[trigger] ns1[i].dependencies@).no_duplicates()
                    && ns1[i].dependants@.no_duplicates() by {
                    if dn.contains(i as usize) {
                        lemma_filter_no_dup(ns0[i].dependencies@, pred);
                    }
                }
            }
            // a closed graph stays closed
            if g0.closed() {
                assert forall|a: usize, b: usize|
                    self.is_present(a as int) && #[trigger] edge(
                        deps_adj(self.nodes@),
                        a,
                        b,
                    ) implies self.is_present(b as int) by {
                    assert(ns1[a as int].dependencies@.contains(b));
                    assert(ns0[a as int].dependencies@.contains(b)) by {
                        if dn.contains(a) {
                            Seq::lemma_filter_contains_rev(
                                ns0[a as int].dependencies@,
                                pred,
                                b,
                            );
                        }
                    }
                    assert(edge(deps_adj(ns0), a, b));
                    assert(g0.is_present(a as int));
                    assert(g0.is_present(b as int));
                    if b == to_remove {
                        assert(edge(dnts_adj(ns0), to_remove, a));
                        assert(dn.contains(a));
                        assert(!ns1[a as int].dependencies@.contains(to_remove)) by {
                            if ns1[a as int].dependencies@.contains(to_remove) {
                                let k = choose|k: int|
                                    0 <= k < ns1[a as int].dependencies@.len() && ns1[
                                        a as int
                                    ].dependencies@[k] == to_remove;
                                assert(pred(ns1[a as int].dependencies@[k]));
                            }
                        }
                        assert(false);
                    }
                }
            }
        }
    }
}

impl<T> Dag<T> {
    /// Drops a member from the graph without detaching it: every
    /// dependant keeps its blocking edge on the dropped node, so none
    /// of them can ever become a root again.  The scheduler uses this
    /// for a node whose task failed, which permanently blocks the
    /// nodes downstream of the failure.
    pub fn retire(&mut self, id: usize)
        requires
            old(self).wf(),
            old(self).is_present(id as int),
        ensures
            final(self).wf(),
            final(self).nodes@ == old(self).nodes@,
            final(self).present@ =~= old(self).present@.update(id as int, false),
    {
        let ghost g0 = *self;
        let ghost pred = keep_other(id);
        let nn = self.nodes.len();
        self.present.set(id, false);
        remove_id(&mut self.roots, id);
        proof {
            lemma_filter_no_dup(g0.roots@, pred);
            assert forall|k: int|
                0 <= k < self.roots@.len() implies self.is_root_id(
                (#[trigger] self.roots@[k]) as int,
            ) by {
                let x = self.roots@[k];
                assert(self.roots@.contains(x));
                Seq::lemma_filter_contains_rev(g0.roots@, pred, x);
                let kk = choose|kk: int| 0 <= kk < g0.roots@.len() && g0.roots@[kk] == x;
                assert(g0.is_root_id(x as int));
                assert(pred(x));
                assert(x != id);
            }
            assert forall|x: int|
                0 <= x < self.nodes@.len() && #[trigger] self.is_root_id(
                    x,
                ) implies self.roots@.contains(x as usize) by {
                assert(self.is_present(x));
                assert(x < nn as int);
                assert(x != id as int);
                assert(x as usize != id);
                assert(g0.is_root_id(x));
                assert(g0.roots@.contains(x as usize));
                let k = choose|k: int| 0 <= k < g0.roots@.len() && g0.roots@[k] == x as usize;
                assert(pred(g0.roots@[k]));
                Seq::lemma_filter_contains(g0.roots@, pred, k);
            }
            assert forall|a: usize, b: usize|
                self.is_present(a as int) && self.is_present(b as int) implies ((#[trigger] edge(
                deps_adj(self.nodes@),
                a,
                b,
            )) <==> (#[trigger] edge(dnts_adj(self.nodes@), b, a))) by {
                assert(g0.is_present(a as int) && g0.is_present(b as int));
            }
        }
    }
}

/// For any well-formed, non-empty, acyclic node set, `build` succeeds:
/// acyclicity guarantees a dependency-free node exists, and no cycle is
/// reachable from any of them.  Together with `build`'s contract this
/// is the law that building an acyclic node set yields a graph whose
/// root set is exactly the dependency-free nodes.
pub proof fn lemma_acyclic_build_succeeds<T>(ns: Seq<Node<T>>)
    requires
        arena_wf(ns),
        ns.len() > 0,
        ns.len() <= usize::MAX,
        acyclic(deps_adj(ns)),
    ensures
        buildable(ns),
{
    crate::cycle::lemma_acyclic_has_sink(deps_adj(ns));
    let x = choose|x: usize| x < deps_adj(ns).len() && deps_adj(ns)[x as int].len() == 0;
    assert(cand_root(ns, x as int));
    assert(has_root_cand(ns));
    assert forall|a: usize, b: usize| #[trigger]
        edge(dnts_adj(ns), a, b) implies edge(deps_adj(ns), b, a) by {}
    crate::cycle::lemma_reverse_acyclic(deps_adj(ns), dnts_adj(ns));
    assert forall|i: int| #[trigger]
        cand_root(ns, i) implies !cycle_reachable_from(dnts_adj(ns), i as usize) by {
        if cycle_reachable_from(dnts_adj(ns), i as usize) {
            let c = choose|c: usize|
                reaches(dnts_adj(ns), i as usize, c) && on_cycle(dnts_adj(ns), c);
            assert(!on_cycle(dnts_adj(ns), c));
        }
    }
}

/// For any node set with a cycle reachable (along dependant edges) from
/// a dependency-free node, validation fails: `build` cannot succeed,
/// and since a root candidate exists the failure is `CycleDetected`,
/// not `NoRoots`.
pub proof fn lemma_reachable_cycle_build_fails<T>(ns: Seq<Node<T>>, s: int)
    requires
        cand_root(ns, s),
        cycle_reachable_from(dnts_adj(ns), s as usize),
    ensures
        !buildable(ns),
        has_root_cand(ns),
{
    assert(!validates(ns));
}

} // verus!
