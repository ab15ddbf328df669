//! A standalone dependency graph that stays acyclic edge by edge.
//!
//! Unlike the scheduler's graph, which validates acyclicity once at
//! build time, this graph checks every edge insertion: a `dep` call
//! that would close a cycle is rejected and commits nothing, so the
//! graph is acyclic at every observable point.

use vstd::prelude::*;

use crate::cycle::acyclic;
use crate::cycle::cycle_reachable_from;
use crate::cycle::edge;
use crate::cycle::find_reachable_cycle;
use crate::cycle::is_cycle;
use crate::cycle::lemma_pivot_acyclic;
use crate::cycle::on_cycle;
use crate::cycle::reaches;
use crate::cycle::view_adj;
use crate::dag::node::Node;
use crate::errors::DagError;
use crate::flow::dag::copy_ids;
use crate::flow::dag::node::arena_wf;
use crate::flow::dag::node::contains_id;
use crate::flow::dag::node::deps_adj;
use crate::flow::dag::node::dnts_adj;

verus! {

/// The dependency edges after recording "`from` depends on `to`".
pub open spec fn with_edge(adj: Seq<Seq<usize>>, from: usize, to: usize) -> Seq<Seq<usize>> {
    adj.update(
        from as int,
        if adj[from as int].contains(to) {
            adj[from as int]
        } else {
            adj[from as int].push(to)
        },
    )
}

/// A standalone graph: the node arena, kept acyclic by every mutation.
pub struct Dag<T> {
    /// The node arena; edge entries index into it.
    pub nodes: Vec<Node<T>>,
}

impl<T> Dag<T> {
    /// Structural well-formedness: the arena's edge lists are in-range
    /// duplicate-free matched pairs, and the dependency graph has no
    /// cycle at all.
    pub open spec fn wf(self) -> bool {
        &&& arena_wf(self.nodes@)
        &&& acyclic(deps_adj(self.nodes@))
    }

    /// An empty graph.
    pub fn new() -> (r: Dag<T>)
        ensures
            r.wf(),
            r.nodes@.len() == 0,
    {
        let r = Dag::<T> { nodes: Vec::new() };
        proof {
            assert forall|c: usize| !on_cycle(deps_adj(r.nodes@), c) by {
                if on_cycle(deps_adj(r.nodes@), c) {
                    let p = choose|p: Seq<usize>| is_cycle(deps_adj(r.nodes@), p) && p[0] == c;
                    assert(p.len() >= 1);
                    assert(p[0] < 0);
                }
            }
        }
        r
    }

    /// Registers a detached node and returns its id.  Edges are added
    /// afterwards, through `dep`, which is what keeps the graph
    /// acyclic.
    pub fn add(&mut self, node: Node<T>) -> (id: usize)
        requires
            old(self).wf(),
            node.dependencies@.len() == 0,
            node.dependants@.len() == 0,
        ensures
            final(self).wf(),
            id == old(self).nodes@.len(),
            final(self).nodes@ == old(self).nodes@.push(node),
    {
        let ghost ns0 = self.nodes@;
        let id = self.nodes.len();
        self.nodes.push(node);
        proof {
            let ns2 = self.nodes@;
            let a0 = deps_adj(ns0);
            let a2 = deps_adj(ns2);
            assert(forall|i: int| 0 <= i < ns0.len() ==> (#[trigger] ns2[i]) == ns0[i]);
            assert(a2[id as int].len() == 0);
            assert(dnts_adj(ns2)[id as int].len() == 0);
            assert forall|a: usize, b: usize| #[trigger]
                edge(a2, a, b) implies a != id && b != id && edge(a0, a, b) by {
                assert(a != id);
                let k = choose|k: int| 0 <= k < a2[a as int].len() && a2[a as int][k] == b;
                assert(a0[a as int][k] == b);
                assert(b < ns0.len());
            }
            assert forall|a: usize, b: usize| #[trigger]
                edge(dnts_adj(ns2), a, b) implies a != id && b != id && edge(
                dnts_adj(ns0),
                a,
                b,
            ) by {
                assert(a != id);
                let k = choose|k: int|
                    0 <= k < dnts_adj(ns2)[a as int].len() && dnts_adj(ns2)[a as int][k] == b;
                assert(dnts_adj(ns0)[a as int][k] == b);
                assert(b < ns0.len());
            }
            assert forall|a: usize, b: usize| #[trigger]
                edge(a0, a, b) implies edge(a2, a, b) by {
                let k = choose|k: int| 0 <= k < a0[a as int].len() && a0[a as int][k] == b;
                assert(a2[a as int][k] == b);
            }
            assert forall|a: usize, b: usize| #[trigger]
                edge(dnts_adj(ns0), a, b) implies edge(dnts_adj(ns2), a, b) by {
                let k = choose|k: int|
                    0 <= k < dnts_adj(ns0)[a as int].len() && dnts_adj(ns0)[a as int][k] == b;
                assert(dnts_adj(ns2)[a as int][k] == b);
            }
            assert(arena_wf(ns2)) by {
                assert(crate::cycle::adj_wf(a2)) by {
                    assert forall|x: int, y: int|
                        0 <= x < a2.len() && 0 <= y < a2[x].len() implies (#[trigger] a2[x][y])
                        < a2.len() by {
                        assert(x < ns0.len());
                        assert(a2[x][y] == a0[x][y]);
                    }
                }
                assert(crate::cycle::adj_wf(dnts_adj(ns2))) by {
                    assert forall|x: int, y: int|
                        0 <= x < dnts_adj(ns2).len() && 0 <= y < dnts_adj(ns2)[x].len() implies (
                    #[trigger] dnts_adj(ns2)[x][y]) < dnts_adj(ns2).len() by {
                        assert(x < ns0.len());
                        assert(dnts_adj(ns2)[x][y] == dnts_adj(ns0)[x][y]);
                    }
                }
                assert(crate::flow::dag::node::edges_no_dup(ns2)) by {
                    assert forall|x: int|
                        0 <= x < ns2.len() implies (#[trigger] ns2[x].dependencies@)
                        .no_duplicates() && ns2[x].dependants@.no_duplicates() by {
                        if x < ns0.len() {
                            assert(ns0[x].dependencies@.no_duplicates());
                            assert(ns0[x].dependants@.no_duplicates());
                        }
                    }
                }
                assert forall|a: usize, b: usize|
                    #[trigger] edge(a2, a, b) <==> #[trigger] edge(dnts_adj(ns2), b, a) by {
                    if edge(a2, a, b) {
                        assert(edge(a0, a, b));
                        assert(edge(dnts_adj(ns0), b, a));
                        assert(edge(dnts_adj(ns2), b, a));
                    }
                    if edge(dnts_adj(ns2), b, a) {
                        assert(edge(dnts_adj(ns0), b, a));
                        assert(edge(a0, a, b));
                        assert(edge(a2, a, b));
                    }
                }
            }
            assert forall|c: usize| !on_cycle(a2, c) by {
                if on_cycle(a2, c) {
                    let p = choose|p: Seq<usize>| is_cycle(a2, p) && p[0] == c;
                    assert forall|i: int|
                        0 <= i < p.len() - 1 implies #[trigger] crate::cycle::edge_at(a0, p, i) by {
                        assert(crate::cycle::edge_at(a2, p, i));
                        assert(edge(a2, p[i], p[i + 1]));
                        assert(edge(a0, p[i], p[i + 1]));
                    }
                    assert(forall|i: int| 0 <= i < p.len() ==> (#[trigger] p[i]) != id) by {
                        assert forall|i: int| 0 <= i < p.len() implies (#[trigger] p[i]) != id by {
                            if i < p.len() - 1 {
                                assert(crate::cycle::edge_at(a2, p, i));
                                assert(edge(a2, p[i], p[i + 1]));
                            } else {
                                assert(p[i] == p[0]);
                                assert(crate::cycle::edge_at(a2, p, 0));
                                assert(edge(a2, p[0], p[1]));
                            }
                        }
                    }
                    assert(is_cycle(a0, p));
                    assert(on_cycle(a0, c));
                }
            }
        }
        id
    }

    /// Records "`from` depends on `to`", keeping both half-edges in
    /// step.  Fails with `NodeNotRegistered` if either endpoint is not
    /// registered, and with `CycleDetected` if the edge would close a
    /// cycle; a rejected call commits nothing, leaving both endpoints'
    /// edge sets exactly as they were.
    #[verifier::loop_isolation(false)]
    pub fn dep(&mut self, from: usize, to: usize) -> (r: Result<(), DagError>)
        requires
            old(self).wf(),
        ensures
            final(self).wf(),
            r is Ok <==> (from < old(self).nodes@.len() && to < old(self).nodes@.len() && acyclic(
                with_edge(deps_adj(old(self).nodes@), from, to),
            )),
            r is Err ==> *final(self) == *old(self),
            r is Err ==> (r == Err::<(), DagError>(DagError::NodeNotRegistered) || r matches Err(
                DagError::CycleDetected(_),
            )),
            r == Err::<(), DagError>(DagError::NodeNotRegistered) <==> (from >= old(
                self,
            ).nodes@.len() || to >= old(self).nodes@.len()),
            forall|c: usize|
                r == Err::<(), DagError>(DagError::CycleDetected(c)) ==> on_cycle(
                    with_edge(deps_adj(old(self).nodes@), from, to),
                    c,
                ) && reaches(with_edge(deps_adj(old(self).nodes@), from, to), from, c),
            r is Ok ==> ({
                let ns0 = old(self).nodes@;
                let ns2 = final(self).nodes@;
                &&& ns2.len() == ns0.len()
                &&& forall|i: int| 0 <= i < ns0.len() ==> (#[trigger] ns2[i]).value == ns0[i].value
                &&& forall|i: int|
                    0 <= i < ns0.len() && i != to ==> (#[trigger] ns2[i]).dependants@
                        == ns0[i].dependants@
                &&& deps_adj(ns2) == with_edge(deps_adj(ns0), from, to)
                &&& ns2[to as int].dependants@ == (if ns0[to as int].dependants@.contains(from) {
                    ns0[to as int].dependants@
                } else {
                    ns0[to as int].dependants@.push(from)
                })
            }),
    {
        let n = self.nodes.len();
        if from >= n || to >= n {
            return Err(DagError::NodeNotRegistered);
        }
        let ghost ns0 = self.nodes@;
        let ghost a0 = deps_adj(ns0);
        let ghost cand_spec = with_edge(a0, from, to);
        // the dependency lists with the new edge, as a plain adjacency
        let mut cand: Vec<Vec<usize>> = Vec::new();
        let mut i: usize = 0;
        while i < n
            invariant
                i <= n,
                cand@.len() == i,
                forall|k: int| 0 <= k < i && k != from ==> (#[trigger] cand@[k])@ =~= a0[k],
                forall|k: int|
                    0 <= k < i && k == from ==> (#[trigger] cand@[k])@ =~= cand_spec[from as int],
            decreases n - i,
        {
            let mut row = copy_ids(&self.nodes[i].dependencies);
            if i == from {
                if !contains_id(&row, to) {
                    row.push(to);
                }
            }
            cand.push(row);
            i += 1;
        }
        proof {
            assert(view_adj(cand@) =~~= cand_spec);
            assert(crate::cycle::adj_wf(cand_spec)) by {
                assert forall|x: int, y: int|
                    0 <= x < cand_spec.len() && 0 <= y < cand_spec[x].len() implies (
                #[trigger] cand_spec[x][y]) < cand_spec.len() by {
                    if x == from as int && y == cand_spec[x].len() - 1 && !a0[
                        from as int
                    ].contains(to) {
                        assert(cand_spec[x][y] == to);
                    } else {
                        assert(cand_spec[x][y] == a0[x][y]);
                    }
                }
            }
        }
        let starts = vec![from];
        match find_reachable_cycle(&cand, &starts) {
            Some(c) => {
                proof {
                    assert(reaches(cand_spec, starts@[0], c));
                }
                Err(DagError::CycleDetected(c))
            },
            None => {
                let r = crate::flow::dag::Dag::dep(&mut self.nodes, from, to);
                proof {
                    let ns2 = self.nodes@;
                    assert(deps_adj(ns2) =~~= cand_spec) by {
                        assert forall|k: int|
                            0 <= k < ns2.len() implies deps_adj(ns2)[k] =~= cand_spec[k] by {
                            if k == from as int {
                            } else {
                            }
                        }
                    }
                    assert(!cycle_reachable_from(cand_spec, from));
                    lemma_pivot_acyclic(a0, cand_spec, from);
                    assert(acyclic(deps_adj(ns2)));
                }
                Ok(())
            },
        }
    }

    /// Finishes a sequence of mutations.  Validation happens edge by
    /// edge in `dep`, so there is nothing left to check here and the
    /// graph is returned exactly as it stands.
    pub fn build(&mut self)
        ensures
            *final(self) == *old(self),
    {
    }
}

} // verus!
