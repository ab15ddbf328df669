//! Cycle detection over adjacency lists.
//!
//! The graph modules hand their edge sets to this module as plain
//! adjacency lists (`adj[i]` holds the successors of node `i`).  The
//! checker runs a three-colour depth-first search from a set of start
//! nodes and reports either that no cycle is reachable from any start,
//! or a node that lies on a reachable cycle.

use vstd::prelude::*;

verus! {

/// The adjacency view of a vector of edge lists.
pub open spec fn view_adj(adj: Seq<Vec<usize>>) -> Seq<Seq<usize>> {
    Seq::new(adj.len(), |i: int| adj[i]@)
}

/// Every successor entry is a valid node id.
pub open spec fn adj_wf(adj: Seq<Seq<usize>>) -> bool {
    forall|i: int, j: int|
        0 <= i < adj.len() && 0 <= j < adj[i].len() ==> (#[trigger] adj[i][j]) < adj.len()
}

/// There is an edge from `a` to `b`.
pub open spec fn edge(adj: Seq<Seq<usize>>, a: usize, b: usize) -> bool {
    a < adj.len() && adj[a as int].contains(b)
}

/// The step at position `i` of walk `p` follows an edge.
pub open spec fn edge_at(adj: Seq<Seq<usize>>, p: Seq<usize>, i: int) -> bool {
    edge(adj, p[i], p[i + 1])
}

/// `p` is a non-empty walk whose consecutive elements are joined by edges.
pub open spec fn is_path(adj: Seq<Seq<usize>>, p: Seq<usize>) -> bool {
    &&& p.len() >= 1
    &&& forall|i: int| 0 <= i < p.len() ==> (#[trigger] p[i]) < adj.len()
    &&& forall|i: int| 0 <= i < p.len() - 1 ==> #[trigger] edge_at(adj, p, i)
}

/// `p` is a closed walk of at least one edge.
pub open spec fn is_cycle(adj: Seq<Seq<usize>>, p: Seq<usize>) -> bool {
    &&& is_path(adj, p)
    &&& p.len() >= 2
    &&& p[0] == p[p.len() - 1]
}

/// Some cycle passes through `c`.
pub open spec fn on_cycle(adj: Seq<Seq<usize>>, c: usize) -> bool {
    exists|p: Seq<usize>| is_cycle(adj, p) && p[0] == c
}

/// There is a walk from `a` to `b` (trivially true for `a == b` when
/// `a` is a valid id).
pub open spec fn reaches(adj: Seq<Seq<usize>>, a: usize, b: usize) -> bool {
    exists|p: Seq<usize>| is_path(adj, p) && p[0] == a && p[p.len() - 1] == b
}

/// Some node on a cycle can be reached from `s`.
pub open spec fn cycle_reachable_from(adj: Seq<Seq<usize>>, s: usize) -> bool {
    exists|c: usize| reaches(adj, s, c) && on_cycle(adj, c)
}

/// No cycle exists anywhere in the graph.
pub open spec fn acyclic(adj: Seq<Seq<usize>>) -> bool {
    forall|c: usize| !on_cycle(adj, c)
}

pub proof fn lemma_reaches_self(adj: Seq<Seq<usize>>, a: usize)
    requires
        a < adj.len(),
    ensures
        reaches(adj, a, a),
{
    let p = seq![a];
    assert(is_path(adj, p) && p[0] == a && p[p.len() - 1] == a);
}

pub proof fn lemma_edge_reaches(adj: Seq<Seq<usize>>, a: usize, b: usize)
    requires
        adj_wf(adj),
        edge(adj, a, b),
    ensures
        reaches(adj, a, b),
{
    let p = seq![a, b];
    assert(adj[a as int].contains(b));
    let j = choose|j: int| 0 <= j < adj[a as int].len() && adj[a as int][j] == b;
    assert(b < adj.len());
    assert forall|i: int| 0 <= i < p.len() - 1 implies #[trigger] edge_at(adj, p, i) by {
        assert(p[i] == a && p[i + 1] == b);
    }
    assert(is_path(adj, p) && p[0] == a && p[p.len() - 1] == b);
}

pub proof fn lemma_reaches_step(adj: Seq<Seq<usize>>, a: usize, b: usize, c: usize)
    requires
        adj_wf(adj),
        edge(adj, a, b),
        reaches(adj, b, c),
    ensures
        reaches(adj, a, c),
{
    let p = choose|p: Seq<usize>| is_path(adj, p) && p[0] == b && p[p.len() - 1] == c;
    let q = seq![a] + p;
    assert(forall|i: int| 0 <= i < p.len() ==> q[i + 1] == p[i]);
    assert(q[0] == a);
    assert forall|i: int| 0 <= i < q.len() - 1 implies #[trigger] edge_at(adj, q, i) by {
        if i == 0 {
            assert(q[0] == a && q[1] == p[0]);
        } else {
            assert(edge_at(adj, p, i - 1));
            assert(q[i] == p[i - 1] && q[i + 1] == p[i]);
        }
    }
    assert(is_path(adj, q));
    assert(q[q.len() - 1] == c);
}

/// A cycle can be rotated so that it starts at any of its interior
/// positions.
pub proof fn lemma_rotate_cycle(adj: Seq<Seq<usize>>, p: Seq<usize>, i: int)
    requires
        is_cycle(adj, p),
        0 <= i < p.len() - 1,
    ensures
        on_cycle(adj, p[i]),
{
    let r = p.subrange(i, p.len() as int) + p.subrange(1, i + 1);
    let n1 = p.len() - i;
    assert(forall|k: int| 0 <= k < n1 ==> r[k] == p[i + k]);
    assert(forall|k: int| n1 <= k < r.len() ==> r[k] == p[k - n1 + 1]);
    assert(r.len() == p.len());
    assert(r[0] == p[i]);
    assert(r[r.len() - 1] == p[i]);
    assert forall|k: int| 0 <= k < r.len() - 1 implies #[trigger] edge_at(adj, r, k) by {
        if k < n1 - 1 {
            assert(edge_at(adj, p, i + k));
            assert(r[k] == p[i + k] && r[k + 1] == p[i + k + 1]);
        } else if k == n1 - 1 {
            assert(r[k] == p[p.len() - 1]);
            assert(r[k] == p[0]);
            assert(r[k + 1] == p[1]);
            assert(edge_at(adj, p, 0));
        } else {
            let m = k - n1 + 1;
            assert(r[k] == p[m] && r[k + 1] == p[m + 1]);
            assert(edge_at(adj, p, m));
        }
    }
    assert(is_cycle(adj, r) && r[0] == p[i]);
}

/// If a graph is acyclic and a modified copy adds only edges that touch
/// a single pivot node, then freedom from cycles reachable from the
/// pivot implies the whole modified graph is acyclic.
pub proof fn lemma_pivot_acyclic(adj: Seq<Seq<usize>>, cand: Seq<Seq<usize>>, pivot: usize)
    requires
        acyclic(adj),
        adj.len() == cand.len(),
        forall|x: usize, y: usize|
            #[trigger] edge(cand, x, y) ==> edge(adj, x, y) || x == pivot || y == pivot,
        !cycle_reachable_from(cand, pivot),
        pivot < cand.len(),
    ensures
        acyclic(cand),
{
    assert forall|c: usize| !on_cycle(cand, c) by {
        if on_cycle(cand, c) {
            let p = choose|p: Seq<usize>| is_cycle(cand, p) && p[0] == c;
            if exists|i: int| 0 <= i < p.len() - 1 && p[i] == pivot {
                let i = choose|i: int| 0 <= i < p.len() - 1 && p[i] == pivot;
                lemma_rotate_cycle(cand, p, i);
                lemma_reaches_self(cand, pivot);
                assert(cycle_reachable_from(cand, pivot));
            } else {
                // no step starts at the pivot; no step can end there
                // either, because the closing step would have to leave it
                assert forall|k: int| 0 <= k < p.len() - 1 implies #[trigger] edge_at(adj, p, k) by {
                    assert(edge_at(cand, p, k));
                    assert(edge(cand, p[k], p[k + 1]));
                    assert(p[k] != pivot);
                    if p[k + 1] == pivot {
                        if k + 1 < p.len() - 1 {
                            assert(false);
                        } else {
                            assert(p[k + 1] == p[0]);
                            assert(p[0] == pivot);
                            assert(false);
                        }
                    }
                }
                assert(is_cycle(adj, p));
                assert(on_cycle(adj, c));
            }
        }
    }
}

/// Reversing every edge of an acyclic graph keeps it acyclic.
pub proof fn lemma_reverse_acyclic(adj: Seq<Seq<usize>>, rev: Seq<Seq<usize>>)
    requires
        forall|x: usize, y: usize| #[trigger] edge(rev, x, y) ==> edge(adj, y, x),
        rev.len() == adj.len(),
        acyclic(adj),
    ensures
        acyclic(rev),
{
    assert forall|c: usize| !on_cycle(rev, c) by {
        if on_cycle(rev, c) {
            let p = choose|p: Seq<usize>| is_cycle(rev, p) && p[0] == c;
            let r = p.reverse();
            assert(r.len() == p.len());
            assert(forall|i: int| 0 <= i < p.len() ==> r[i] == p[p.len() - 1 - i]);
            assert forall|i: int| 0 <= i < r.len() - 1 implies #[trigger] edge_at(adj, r, i) by {
                let j = p.len() - 2 - i;
                assert(edge_at(rev, p, j));
                assert(edge(rev, p[j], p[j + 1]));
                assert(r[i] == p[j + 1] && r[i + 1] == p[j]);
            }
            assert(is_cycle(adj, r));
            assert(on_cycle(adj, r[0]));
        }
    }
}

// ---------------------------------------------------------------------
// Pigeonhole: a long enough walk within a finite live set must repeat a
// node, which yields a cycle.
// ---------------------------------------------------------------------

/// The set of ids strictly below `n`.
pub open spec fn id_range(n: nat) -> Set<usize> {
    Set::new(|x: usize| (x as nat) < n)
}

pub proof fn lemma_id_range_len(n: nat)
    requires
        n <= usize::MAX,
    ensures
        id_range(n).finite(),
        id_range(n).len() == n,
    decreases n,
{
    if n == 0 {
        assert(id_range(0) =~= Set::empty());
    } else {
        lemma_id_range_len((n - 1) as nat);
        assert(id_range(((n - 1) as nat)).insert(((n - 1) as usize)) =~= id_range(n));
    }
}

pub proof fn lemma_seq_pigeonhole(s: Seq<usize>, n: nat)
    requires
        n <= usize::MAX,
        forall|i: int| 0 <= i < s.len() ==> (#[trigger] s[i] as nat) < n,
        s.len() > n,
    ensures
        exists|i: int, j: int| 0 <= i < j < s.len() && s[i] == s[j],
{
    if !(exists|i: int, j: int| 0 <= i < j < s.len() && s[i] == s[j]) {
        assert(s.no_duplicates()) by {
            assert forall|i: int, j: int|
                0 <= i < s.len() && 0 <= j < s.len() && i != j implies s[i] != s[j] by {
                if s[i] == s[j] {
                    if i < j {
                        assert(0 <= i < j < s.len() && s[i] == s[j]);
                    } else {
                        assert(0 <= j < i < s.len() && s[j] == s[i]);
                    }
                }
            }
        }
        s.unique_seq_to_set();
        lemma_id_range_len(n);
        assert(s.to_set().subset_of(id_range(n))) by {
            assert forall|x: usize| s.to_set().contains(x) implies id_range(n).contains(x) by {
                let i = choose|i: int| 0 <= i < s.len() && s[i] == x;
                assert((s[i] as nat) < n);
            }
        }
        vstd::set_lib::lemma_len_subset(s.to_set(), id_range(n));
        assert(false);
    }
}

/// If every member of a non-empty live set has a successor inside the
/// live set, some member of the live set lies on a cycle.
#[verifier::rlimit(30)]
pub proof fn lemma_all_blocked_has_cycle(adj: Seq<Seq<usize>>, live: Set<usize>, seed: usize)
    requires
        adj.len() <= usize::MAX,
        adj_wf(adj),
        live.contains(seed),
        forall|x: usize| #[trigger] live.contains(x) ==> x < adj.len(),
        forall|x: usize| #[trigger] live.contains(x)
            ==> exists|y: usize| live.contains(y) && edge(adj, x, y),
    ensures
        exists|c: usize| live.contains(c) && on_cycle(adj, c),
{
    let n = adj.len();
    lemma_live_walk(adj, live, seed, n as nat);
    let p = choose|p: Seq<usize>|
        is_path(adj, p) && p.len() == n + 1 && p[0] == seed
            && (forall|i: int| 0 <= i < p.len() ==> live.contains(#[trigger] p[i]));
    lemma_seq_pigeonhole(p, n as nat);
    let (i, j) = choose|i: int, j: int| 0 <= i < j < p.len() && p[i] == p[j];
    let cyc = p.subrange(i, j + 1);
    assert(forall|k: int| 0 <= k < cyc.len() ==> cyc[k] == p[i + k]);
    assert forall|k: int| 0 <= k < cyc.len() - 1 implies #[trigger] edge_at(adj, cyc, k) by {
        assert(edge_at(adj, p, i + k));
        assert(cyc[k] == p[i + k] && cyc[k + 1] == p[i + k + 1]);
    }
    assert(is_cycle(adj, cyc));
    assert(on_cycle(adj, cyc[0]) && live.contains(cyc[0]));
}

/// Builds a walk of `k + 1` nodes inside the live set.
proof fn lemma_live_walk(adj: Seq<Seq<usize>>, live: Set<usize>, seed: usize, k: nat)
    requires
        adj_wf(adj),
        live.contains(seed),
        forall|x: usize| #[trigger] live.contains(x) ==> x < adj.len(),
        forall|x: usize| #[trigger] live.contains(x)
            ==> exists|y: usize| live.contains(y) && edge(adj, x, y),
    ensures
        exists|p: Seq<usize>|
            is_path(adj, p) && p.len() == k + 1 && p[0] == seed
                && (forall|i: int| 0 <= i < p.len() ==> live.contains(#[trigger] p[i])),
    decreases k,
{
    if k == 0 {
        let p = seq![seed];
        assert(is_path(adj, p) && p.len() == k + 1 && p[0] == seed);
        assert(forall|i: int| 0 <= i < p.len() ==> live.contains(#[trigger] p[i]));
    } else {
        lemma_live_walk(adj, live, seed, (k - 1) as nat);
        let p = choose|p: Seq<usize>|
            is_path(adj, p) && p.len() == (k - 1) + 1 && p[0] == seed
                && (forall|i: int| 0 <= i < p.len() ==> live.contains(#[trigger] p[i]));
        let last = p[p.len() - 1];
        let y = choose|y: usize| live.contains(y) && edge(adj, last, y);
        let q = p.push(y);
        assert(forall|i: int| 0 <= i < p.len() ==> q[i] == p[i]);
        assert(q[q.len() - 1] == y && y < adj.len());
        assert forall|i: int| 0 <= i < q.len() - 1 implies #[trigger] edge_at(adj, q, i) by {
            if i < p.len() - 1 {
                assert(edge_at(adj, p, i));
                assert(q[i] == p[i] && q[i + 1] == p[i + 1]);
            } else {
                assert(q[i] == last && q[i + 1] == y);
            }
        }
        assert(is_path(adj, q) && q.len() == k + 1 && q[0] == seed);
        assert(forall|i: int| 0 <= i < q.len() ==> live.contains(#[trigger] q[i]));
    }
}

/// A non-empty acyclic graph has a node with no outgoing edge.
pub proof fn lemma_acyclic_has_sink(adj: Seq<Seq<usize>>)
    requires
        adj.len() <= usize::MAX,
        adj_wf(adj),
        adj.len() > 0,
        acyclic(adj),
    ensures
        exists|x: usize| x < adj.len() && adj[x as int].len() == 0,
{
    if !(exists|x: usize| x < adj.len() && adj[x as int].len() == 0) {
        let live = id_range(adj.len() as nat);
        assert forall|x: usize| #[trigger] live.contains(x)
            implies exists|y: usize| live.contains(y) && edge(adj, x, y) by {
            assert(x < adj.len() && !(adj[x as int].len() == 0));
            let y = adj[x as int][0];
            assert(adj[x as int].contains(y));
            assert(live.contains(y) && edge(adj, x, y));
        }
        assert(live.contains(0usize));
        lemma_all_blocked_has_cycle(adj, live, 0usize);
        let c = choose|c: usize| live.contains(c) && on_cycle(adj, c);
        assert(false);
    }
}

// ---------------------------------------------------------------------
// The three-colour depth-first search.
// ---------------------------------------------------------------------

/// The visit state of a node during one validation pass.
#[derive(Clone, Copy, Debug)]
pub enum Status {
    /// Not yet reached.
    Initial,
    /// On the current search stack.
    Processing,
    /// Fully explored, with every successor fully explored.
    Processed,
}

/// Every successor of a finished node is finished.
pub open spec fn done_closed(adj: Seq<Seq<usize>>, c: Seq<Status>) -> bool {
    forall|a: usize, b: usize|
        a < c.len() && c[a as int] == Status::Processed && #[trigger] edge(adj, a, b)
            ==> c[b as int] == Status::Processed
}

/// No finished node lies on a cycle.
pub open spec fn done_acyclic(adj: Seq<Seq<usize>>, c: Seq<Status>) -> bool {
    forall|x: int|
        0 <= x < c.len() && #[trigger] c[x] == Status::Processed ==> !on_cycle(adj, x as usize)
}

/// The nodes on the search stack are exactly the in-progress nodes.
pub open spec fn processing_is_stack(c: Seq<Status>, stack: Seq<usize>) -> bool {
    forall|x: int|
        0 <= x < c.len() ==> ((#[trigger] c[x]) == Status::Processing <==> stack.contains(
            x as usize,
        ))
}

/// The colour state is consistent with the search stack.
pub open spec fn colors_wf(adj: Seq<Seq<usize>>, c: Seq<Status>, stack: Seq<usize>) -> bool {
    &&& c.len() == adj.len()
    &&& processing_is_stack(c, stack)
    &&& (stack.len() > 0 ==> is_path(adj, stack))
    &&& done_closed(adj, c)
    &&& done_acyclic(adj, c)
}

/// The number of unvisited nodes, the termination measure of the search.
pub open spec fn count_initial(c: Seq<Status>) -> nat
    decreases c.len(),
{
    if c.len() == 0 {
        0
    } else {
        count_initial(c.drop_last()) + if c.last() == Status::Initial {
            1nat
        } else {
            0nat
        }
    }
}

proof fn lemma_count_initial_update(c: Seq<Status>, i: int, s: Status)
    requires
        0 <= i < c.len(),
        c[i] == Status::Initial,
        s != Status::Initial,
    ensures
        count_initial(c.update(i, s)) < count_initial(c),
    decreases c.len(),
{
    let c2 = c.update(i, s);
    if i == c.len() - 1 {
        assert(c2.drop_last() =~= c.drop_last());
    } else {
        assert(c2.drop_last() =~= c.drop_last().update(i, s));
        lemma_count_initial_update(c.drop_last(), i, s);
    }
}

proof fn lemma_count_initial_mono(c1: Seq<Status>, c2: Seq<Status>)
    requires
        c1.len() == c2.len(),
        forall|i: int|
            0 <= i < c1.len() && (#[trigger] c2[i]) == Status::Initial ==> c1[i]
                == Status::Initial,
    ensures
        count_initial(c2) <= count_initial(c1),
    decreases c1.len(),
{
    if c1.len() > 0 {
        assert(forall|i: int| 0 <= i < c1.len() - 1 ==> (#[trigger] c2.drop_last()[i]) == c2[i]);
        lemma_count_initial_mono(c1.drop_last(), c2.drop_last());
    }
}

/// A walk that starts at a finished node stays among finished nodes.
proof fn lemma_done_path(adj: Seq<Seq<usize>>, c: Seq<Status>, p: Seq<usize>)
    requires
        c.len() == adj.len(),
        done_closed(adj, c),
        is_path(adj, p),
        c[p[0] as int] == Status::Processed,
    ensures
        forall|i: int| 0 <= i < p.len() ==> c[(#[trigger] p[i]) as int] == Status::Processed,
    decreases p.len(),
{
    if p.len() > 1 {
        assert(edge_at(adj, p, 0));
        assert(edge(adj, p[0], p[1]));
        assert(c[p[1] as int] == Status::Processed);
        let q = p.subrange(1, p.len() as int);
        assert(forall|i: int| 0 <= i < q.len() ==> q[i] == p[i + 1]);
        assert forall|i: int| 0 <= i < q.len() - 1 implies #[trigger] edge_at(adj, q, i) by {
            assert(edge_at(adj, p, i + 1));
            assert(q[i] == p[i + 1] && q[i + 1] == p[i + 2]);
        }
        assert(is_path(adj, q));
        lemma_done_path(adj, c, q);
        assert forall|i: int|
            0 <= i < p.len() implies c[(#[trigger] p[i]) as int] == Status::Processed by {
            if i > 0 {
                assert(c[(q[i - 1]) as int] == Status::Processed);
            }
        }
    }
}

proof fn lemma_done_reach(adj: Seq<Seq<usize>>, c: Seq<Status>, a: usize, b: usize)
    requires
        c.len() == adj.len(),
        done_closed(adj, c),
        reaches(adj, a, b),
        c[a as int] == Status::Processed,
    ensures
        c[b as int] == Status::Processed,
{
    let p = choose|p: Seq<usize>| is_path(adj, p) && p[0] == a && p[p.len() - 1] == b;
    lemma_done_path(adj, c, p);
    assert(c[(p[p.len() - 1]) as int] == Status::Processed);
}

/// One depth-first visit.  Returns `None` if no cycle is reachable from
/// `pt` and marks everything reachable from `pt` as finished; returns
/// `Some(q)` for a node `q` that lies on a cycle reachable from `pt`.
#[verifier::loop_isolation(false)]
fn dfs(adj: &Vec<Vec<usize>>, pt: usize, visited: &mut Vec<Status>, stack: Ghost<Seq<usize>>) -> (r:
    Option<usize>)
    requires
        adj_wf(view_adj(adj@)),
        old(visited)@.len() == adj@.len(),
        pt < adj@.len(),
        old(visited)@[pt as int] == Status::Initial,
        colors_wf(view_adj(adj@), old(visited)@, stack@),
        stack@.len() > 0 ==> edge(view_adj(adj@), stack@[stack@.len() - 1], pt),
    ensures
        final(visited)@.len() == old(visited)@.len(),
        r is None ==> {
            &&& final(visited)@[pt as int] == Status::Processed
            &&& colors_wf(view_adj(adj@), final(visited)@, stack@)
            &&& forall|i: int|
                0 <= i < final(visited)@.len() ==> (#[trigger] final(visited)@[i]) == old(
                    visited,
                )@[i] || (old(visited)@[i] == Status::Initial && final(visited)@[i]
                    == Status::Processed)
            &&& count_initial(final(visited)@) < count_initial(old(visited)@)
        },
        r matches Some(c) ==> c < adj@.len() && on_cycle(view_adj(adj@), c) && reaches(
            view_adj(adj@),
            pt,
            c,
        ),
    decreases count_initial(old(visited)@),
{
    let ghost a = view_adj(adj@);
    let ghost c0 = visited@;
    visited.set(pt, Status::Processing);
    let ghost c1 = visited@;
    let ghost stack2 = stack@.push(pt);
    let n_total = adj.len();
    proof {
        broadcast use vstd::seq_lib::lemma_seq_contains_after_push;

        assert(!stack@.contains(pt));
        assert forall|x: int|
            0 <= x < c1.len() implies ((#[trigger] c1[x]) == Status::Processing <==> stack2
            .contains(x as usize)) by {
            assert(x < n_total as int);
            if x == pt as int {
                assert(stack2.contains(pt));
            } else {
                assert(c1[x] == c0[x]);
                assert(x as usize != pt);
            }
        }
        assert(is_path(a, stack2)) by {
            assert(forall|i: int| 0 <= i < stack@.len() ==> stack2[i] == stack@[i]);
            assert forall|i: int| 0 <= i < stack2.len() - 1 implies #[trigger] edge_at(
                a,
                stack2,
                i,
            ) by {
                if i < stack@.len() - 1 {
                    assert(edge_at(a, stack@, i));
                    assert(stack2[i] == stack@[i] && stack2[i + 1] == stack@[i + 1]);
                } else {
                    assert(stack2[i] == stack@[stack@.len() - 1] && stack2[i + 1] == pt);
                }
            }
        }
        assert(done_closed(a, c1)) by {
            assert forall|x: usize, y: usize|
                x < c1.len() && c1[x as int] == Status::Processed && #[trigger] edge(a, x, y)
                implies c1[y as int] == Status::Processed by {
                assert(c0[x as int] == Status::Processed);
                assert(c0[y as int] == Status::Processed);
                assert(y != pt);
            }
        }
        assert(done_acyclic(a, c1));
        lemma_count_initial_update(c0, pt as int, Status::Processing);
    }
    let n_succ = adj[pt].len();
    let mut k: usize = 0;
    while k < n_succ
        invariant
            visited@.len() == adj@.len(),
            n_succ == a[pt as int].len(),
            k <= n_succ,
            visited@[pt as int] == Status::Processing,
            colors_wf(a, visited@, stack2),
            forall|j: int|
                0 <= j < k ==> visited@[(#[trigger] a[pt as int][j]) as int] == Status::Processed,
            forall|i: int|
                0 <= i < visited@.len() ==> (#[trigger] visited@[i]) == c1[i] || (c1[i]
                    == Status::Initial && visited@[i] == Status::Processed),
            count_initial(visited@) < count_initial(c0),
        decreases n_succ - k,
    {
        let q = adj[pt][k];
        proof {
            assert(adj@[pt as int]@[k as int] == q);
            assert(a[pt as int][k as int] == q);
            assert(a[pt as int].contains(q));
            assert(edge(a, pt, q));
            assert(q < adj@.len());
        }
        let status = visited[q];
        match status {
            Status::Initial => {
                let ghost c_pre = visited@;
                let r = dfs(adj, q, visited, Ghost(stack2));
                match r {
                    Some(c) => {
                        proof {
                            lemma_reaches_step(a, pt, q, c);
                        }
                        return Some(c);
                    },
                    None => {
                        proof {
                            assert forall|i: int|
                                0 <= i < visited@.len() implies (#[trigger] visited@[i]) == c1[i]
                                || (c1[i] == Status::Initial && visited@[i] == Status::Processed)
                                by {
                                assert(visited@[i] == c_pre[i] || (c_pre[i] == Status::Initial
                                    && visited@[i] == Status::Processed));
                            }
                        }
                    },
                }
            },
            Status::Processing => {
                proof {
                    assert(stack2.contains(q));
                    let i = choose|i: int| 0 <= i < stack2.len() && stack2[i] == q;
                    let cyc = stack2.subrange(i, stack2.len() as int).push(q);
                    let n1 = stack2.len() - i;
                    assert(forall|m: int| 0 <= m < n1 ==> cyc[m] == stack2[i + m]);
                    assert(cyc[n1] == q);
                    assert(cyc[0] == q);
                    assert(cyc[cyc.len() - 1] == q);
                    assert(is_path(a, stack2));
                    assert forall|m: int| 0 <= m < cyc.len() - 1 implies #[trigger] edge_at(
                        a,
                        cyc,
                        m,
                    ) by {
                        if m < n1 - 1 {
                            assert(edge_at(a, stack2, i + m));
                            assert(cyc[m] == stack2[i + m] && cyc[m + 1] == stack2[i + m + 1]);
                        } else {
                            assert(cyc[m] == stack2[stack2.len() - 1]);
                            assert(stack2[stack2.len() - 1] == pt);
                            assert(cyc[m + 1] == q);
                            assert(edge(a, pt, q));
                        }
                    }
                    assert(is_cycle(a, cyc));
                    assert(on_cycle(a, q));
                    lemma_edge_reaches(a, pt, q);
                }
                return Some(q);
            },
            Status::Processed => {},
        }
        k += 1;
    }
    let ghost c_fin = visited@;
    visited.set(pt, Status::Processed);
    proof {
        let c2 = visited@;
        // every successor of pt is finished
        assert forall|b: usize| #[trigger] edge(a, pt, b) implies c2[b as int]
            == Status::Processed by {
            assert(a[pt as int].contains(b));
            let j = choose|j: int| 0 <= j < a[pt as int].len() && a[pt as int][j] == b;
            assert(c_fin[(a[pt as int][j]) as int] == Status::Processed);
            assert(b != pt);
        }
        // pt is on no cycle
        assert(!on_cycle(a, pt)) by {
            if on_cycle(a, pt) {
                let p = choose|p: Seq<usize>| is_cycle(a, p) && p[0] == pt;
                assert(edge_at(a, p, 0));
                assert(edge(a, p[0], p[1]));
                assert(c_fin[p[1] as int] == Status::Processed) by {
                    assert(a[pt as int].contains(p[1]));
                    let j = choose|j: int| 0 <= j < a[pt as int].len() && a[pt as int][j] == p[1];
                    assert(c_fin[(a[pt as int][j]) as int] == Status::Processed);
                }
                let tail = p.subrange(1, p.len() as int);
                assert(forall|m: int| 0 <= m < tail.len() ==> tail[m] == p[m + 1]);
                assert forall|m: int| 0 <= m < tail.len() - 1 implies #[trigger] edge_at(
                    a,
                    tail,
                    m,
                ) by {
                    assert(edge_at(a, p, m + 1));
                    assert(tail[m] == p[m + 1] && tail[m + 1] == p[m + 2]);
                }
                assert(is_path(a, tail));
                lemma_done_path(a, c_fin, tail);
                assert(c_fin[(tail[tail.len() - 1]) as int] == Status::Processed);
                assert(tail[tail.len() - 1] == pt);
                assert(false);
            }
        }
        assert(processing_is_stack(c2, stack@)) by {
            broadcast use vstd::seq_lib::lemma_seq_contains_after_push;

            assert forall|x: int|
                0 <= x < c2.len() implies ((#[trigger] c2[x]) == Status::Processing <==> stack@
                .contains(x as usize)) by {
                assert(x < n_total as int);
                if x == pt as int {
                    assert(c2[x] == Status::Processed);
                    assert(!stack@.contains(pt));
                } else {
                    assert(c2[x] == c_fin[x]);
                    assert(x as usize != pt);
                    assert(c_fin[x] == Status::Processing <==> stack2.contains(x as usize));
                }
            }
        }
        assert(done_closed(a, c2)) by {
            assert forall|x: usize, y: usize|
                x < c2.len() && c2[x as int] == Status::Processed && #[trigger] edge(a, x, y)
                implies c2[y as int] == Status::Processed by {
                if x == pt {
                    assert(c2[y as int] == Status::Processed);
                } else {
                    assert(c_fin[x as int] == Status::Processed);
                    assert(c_fin[y as int] == Status::Processed);
                    assert(y != pt || c2[y as int] == Status::Processed);
                }
            }
        }
        assert(done_acyclic(a, c2));
        assert forall|i: int|
            0 <= i < c2.len() implies (#[trigger] c2[i]) == c0[i] || (c0[i] == Status::Initial
            && c2[i] == Status::Processed) by {
            if i != pt as int {
                assert(c2[i] == c_fin[i]);
                assert(c_fin[i] == c1[i] || (c1[i] == Status::Initial && c_fin[i]
                    == Status::Processed));
                assert(c1[i] == c0[i]);
            }
        }
        lemma_count_initial_mono(c1, c2);
        assert(count_initial(c2) < count_initial(c0));
    }
    None
}

/// Fills a fresh colour vector with `Initial`.
fn fresh_colors(n: usize) -> (r: Vec<Status>)
    ensures
        r@.len() == n,
        forall|i: int| 0 <= i < n ==> (#[trigger] r@[i]) == Status::Initial,
{
    let mut r: Vec<Status> = Vec::new();
    let mut i: usize = 0;
    while i < n
        invariant
            i <= n,
            r@.len() == i,
            forall|j: int| 0 <= j < i ==> (#[trigger] r@[j]) == Status::Initial,
        decreases n - i,
    {
        r.push(Status::Initial);
        i += 1;
    }
    r
}

/// Validates that no cycle is reachable from any of the start nodes,
/// running an independent traversal from each start.  Returns `None` on
/// success, or `Some(c)` for a node `c` on a reachable cycle.
pub fn find_reachable_cycle(adj: &Vec<Vec<usize>>, starts: &Vec<usize>) -> (r: Option<usize>)
    requires
        adj_wf(view_adj(adj@)),
        forall|i: int| 0 <= i < starts@.len() ==> (#[trigger] starts@[i]) < adj@.len(),
    ensures
        r is None <==> (forall|i: int|
            0 <= i < starts@.len() ==> !cycle_reachable_from(view_adj(adj@), #[trigger] starts@[i])),
        r matches Some(c) ==> c < adj@.len() && on_cycle(view_adj(adj@), c) && (exists|i: int|
            0 <= i < starts@.len() && reaches(view_adj(adj@), #[trigger] starts@[i], c)),
{
    let ghost a = view_adj(adj@);
    let n = adj.len();
    let mut s: usize = 0;
    while s < starts.len()
        invariant
            adj_wf(a),
            a == view_adj(adj@),
            n == adj@.len(),
            s <= starts@.len(),
            forall|i: int| 0 <= i < starts@.len() ==> (#[trigger] starts@[i]) < adj@.len(),
            forall|i: int| 0 <= i < s ==> !cycle_reachable_from(a, #[trigger] starts@[i]),
        decreases starts@.len() - s,
    {
        let start = starts[s];
        let mut visited = fresh_colors(n);
        proof {
            assert(colors_wf(a, visited@, Seq::<usize>::empty()));
        }
        let r = dfs(adj, start, &mut visited, Ghost(Seq::<usize>::empty()));
        match r {
            Some(c) => {
                proof {
                    assert(reaches(a, starts@[s as int], c));
                }
                return Some(c);
            },
            None => {
                proof {
                    assert(!cycle_reachable_from(a, start)) by {
                        if cycle_reachable_from(a, start) {
                            let c = choose|c: usize| reaches(a, start, c) && on_cycle(a, c);
                            lemma_done_reach(a, visited@, start, c);
                            assert(!on_cycle(a, c));
                        }
                    }
                }
            },
        }
        s += 1;
    }
    None
}

} // verus!
