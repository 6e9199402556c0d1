//! Planning a build: which edges the targets need, which of them are
//! dirty, and in what order they may run.
use vstd::prelude::*;

use crate::buildlog::BuildLog;
use crate::error::{build_error, ErrorView, KageError, Result};
use crate::files::{FileMeta, StatCache};
use crate::graph::{
    edges_ok, graph_wf, ids_below, occ, opt_text, Edge, EdgeId, EdgeView, Graph, GraphView, NodeId,
};
use crate::parse::DepFormat;
use crate::depfile::{depfile_deps, parse_depfile};
use crate::strutil::{push_str, strictly_sorted, views};
use vstd::string::StringSliceAdditionalSpecFns;

verus! {

// ---------------------------------------------------------------------------
// Paths through the graph
/// `c` is an input or order-only input of the edge that produces `n`.
pub open spec fn child(g: GraphView, n: usize, c: usize) -> bool {
    &&& n < g.nodes.len()
    &&& g.nodes[n as int].producer is Some
    &&& {
        let e = g.nodes[n as int].producer->0 as int;
        g.edges[e].ins.contains(c) || g.edges[e].order_only_ins.contains(c)
    }
}

/// The `i`th step of `p` goes from a node to one it needs.
pub open spec fn step_ok(g: GraphView, p: Seq<usize>, i: int) -> bool {
    child(g, p[i], p[i + 1])
}

/// A nonempty sequence of nodes, each needed by the one before.
pub open spec fn is_path(g: GraphView, p: Seq<usize>) -> bool {
    &&& p.len() > 0
    &&& forall|i: int| 0 <= i < p.len() - 1 ==> #[trigger] step_ok(g, p, i)
}

/// Some path leads from a target to `n`.
pub open spec fn reachable(g: GraphView, targets: Seq<usize>, n: usize) -> bool {
    exists|p: Seq<usize>| #[trigger] is_path(g, p) && targets.contains(p[0]) && p.last() == n
}

/// Some path of at least one step leads from `n` back to `n`.
pub open spec fn on_cycle(g: GraphView, n: usize) -> bool {
    exists|p: Seq<usize>| #[trigger] is_path(g, p) && p.len() >= 2 && p[0] == n && p.last() == n
}

/// A node that the targets need lies on a cycle.
pub open spec fn has_reachable_cycle(g: GraphView, targets: Seq<usize>) -> bool {
    exists|n: usize| #[trigger] reachable(g, targets, n) && on_cycle(g, n)
}

/// Edge `e` produces a node that the targets need.
pub open spec fn is_wanted(g: GraphView, targets: Seq<usize>, e: int) -> bool {
    exists|n: usize|
        #[trigger] reachable(g, targets, n) && n < g.nodes.len() && g.nodes[n as int].producer
            == Some(e as usize)
}

pub open spec fn cycle_msg(path: Seq<char>) -> Seq<char> {
    "dependency cycle involving '"@ + path + "'"@
}

/// The error for a cycle through a needed node.
pub open spec fn is_cycle_error(g: GraphView, targets: Seq<usize>, e: ErrorView) -> bool {
    exists|n: usize|
        #[trigger] reachable(g, targets, n) && on_cycle(g, n) && n < g.nodes.len() && e
            == build_error(cycle_msg(g.nodes[n as int].path))
}

// ---------------------------------------------------------------------------
// The walk's state
/// Every node of `p` is finished.
pub open spec fn all_done(vis: Seq<u8>, p: Seq<usize>) -> bool {
    forall|i: int| 0 <= i < p.len() ==> (#[trigger] p[i]) < vis.len() && vis[p[i] as int] == 2
}

/// The state of the walk: `vis` is 0 for a node not reached yet, 1 for one
/// on the stack, 2 for a finished one.  Finished nodes need only finished
/// nodes and lie on no cycle among them; every reached node is needed; an
/// edge is wanted when it produces a reached node.
pub open spec fn walk_inv(
    g: GraphView,
    targets: Seq<usize>,
    wanted: Seq<bool>,
    vis: Seq<u8>,
    stack: Seq<usize>,
) -> bool {
    &&& vis.len() == g.nodes.len()
    &&& wanted.len() == g.edges.len()
    &&& vis.len() <= usize::MAX
    &&& wanted.len() <= usize::MAX
    &&& forall|m: int| 0 <= m < vis.len() ==> #[trigger] vis[m] <= 2
    &&& forall|m: int| 0 <= m < vis.len() ==> (#[trigger] vis[m] == 1 <==> stack.contains(m as usize))
    &&& ids_below(stack, g.nodes.len() as int)
    &&& stack.len() > 0 ==> is_path(g, stack) && targets.contains(stack[0])
    &&& forall|m: usize, c: usize|
        m < vis.len() && vis[m as int] == 2 && #[trigger] child(g, m, c) ==> vis[c as int] == 2
    &&& forall|p: Seq<usize>|
        #[trigger] is_path(g, p) && p.len() >= 2 && all_done(vis, p) ==> p[0] != p.last()
    &&& forall|m: int| 0 <= m < vis.len() && #[trigger] vis[m] != 0 ==> reachable(g, targets, m as usize)
    &&& forall|e: int|
        0 <= e < wanted.len() ==> (#[trigger] wanted[e] <==> exists|m: int|
            0 <= m < vis.len() && #[trigger] vis[m] != 0 && g.nodes[m].producer == Some(e as usize))
}

/// Nodes reached in `a` keep their state in `b`.
pub open spec fn grew(a: Seq<u8>, b: Seq<u8>) -> bool {
    &&& a.len() == b.len()
    &&& forall|m: int| 0 <= m < a.len() && #[trigger] a[m] != 0 ==> b[m] == a[m]
}

/// How many nodes are not reached yet.
pub open spec fn zeros(v: Seq<u8>) -> nat
    decreases v.len(),
{
    if v.len() == 0 {
        0
    } else {
        zeros(v.drop_last()) + if v.last() == 0 {
            1nat
        } else {
            0nat
        }
    }
}

pub proof fn lemma_zeros_grew(a: Seq<u8>, b: Seq<u8>)
    requires
        grew(a, b),
    ensures
        zeros(b) <= zeros(a),
        (exists|k: int| 0 <= k < a.len() && a[k] == 0 && b[k] != 0) ==> zeros(b) < zeros(a),
    decreases a.len(),
{
    if a.len() > 0 {
        let a1 = a.drop_last();
        let b1 = b.drop_last();
        assert(grew(a1, b1)) by {
            assert forall|m: int| 0 <= m < a1.len() && #[trigger] a1[m] != 0 implies b1[m] == a1[m] by {
                assert(a[m] != 0);
            }
        }
        lemma_zeros_grew(a1, b1);
        if exists|k: int| 0 <= k < a.len() && a[k] == 0 && b[k] != 0 {
            let k = choose|k: int| 0 <= k < a.len() && a[k] == 0 && b[k] != 0;
            if k < a1.len() {
                assert(a1[k] == 0 && b1[k] != 0);
            }
        }
    }
}

/// A path that starts at a finished node stays among finished nodes.
pub proof fn lemma_path_done(g: GraphView, vis: Seq<u8>, p: Seq<usize>)
    requires
        is_path(g, p),
        p[0] < vis.len(),
        vis[p[0] as int] == 2,
        forall|m: usize, c: usize|
            m < vis.len() && vis[m as int] == 2 && #[trigger] child(g, m, c) ==> vis[c as int] == 2,
        graph_wf(g),
        vis.len() == g.nodes.len(),
    ensures
        all_done(vis, p),
    decreases p.len(),
{
    if p.len() > 1 {
        let q = p.drop_last();
        assert forall|i: int| 0 <= i < q.len() - 1 implies #[trigger] step_ok(g, q, i) by {
            assert(step_ok(g, p, i));
        }
        lemma_path_done(g, vis, q);
        let i = p.len() - 2;
        assert(step_ok(g, p, i));
        assert(q[i] == p[i]);
        let n = p[i];
        let e = g.nodes[n as int].producer->0 as int;
        let c = p[i + 1];
        assert(g.edges[e].ins == g.edges[e].ins);
        if g.edges[e].ins.contains(c) {
            let k = choose|k: int| 0 <= k < g.edges[e].ins.len() && g.edges[e].ins[k] == c;
            assert(g.edges[e].ins[k] < vis.len());
        } else {
            let k = choose|k: int|
                0 <= k < g.edges[e].order_only_ins.len() && g.edges[e].order_only_ins[k] == c;
            assert(g.edges[e].order_only_ins[k] < vis.len());
        }
        assert(child(g, n, c));
        assert forall|j: int| 0 <= j < p.len() implies (#[trigger] p[j]) < vis.len() && vis[p[j] as int]
            == 2 by {
            if j < q.len() {
                assert(q[j] == p[j]);
            }
        }
    }
}


pub proof fn lemma_path_sub(g: GraphView, p: Seq<usize>, a: int, b: int)
    requires
        is_path(g, p),
        0 <= a < b <= p.len(),
    ensures
        is_path(g, p.subrange(a, b)),
{
    let q = p.subrange(a, b);
    assert forall|i: int| 0 <= i < q.len() - 1 implies #[trigger] step_ok(g, q, i) by {
        assert(step_ok(g, p, a + i));
        assert(q[i] == p[a + i]);
        assert(q[i + 1] == p[a + i + 1]);
    }
}

pub proof fn lemma_path_push(g: GraphView, p: Seq<usize>, n: usize)
    requires
        is_path(g, p),
        child(g, p.last(), n),
    ensures
        is_path(g, p.push(n)),
{
    let q = p.push(n);
    assert forall|i: int| 0 <= i < q.len() - 1 implies #[trigger] step_ok(g, q, i) by {
        if i < p.len() - 1 {
            assert(step_ok(g, p, i));
        }
    }
}

/// A node on the stack that is reached again lies on a cycle.
pub proof fn lemma_walk_cycle(
    g: GraphView,
    targets: Seq<usize>,
    wanted: Seq<bool>,
    vis: Seq<u8>,
    stack: Seq<usize>,
    node: usize,
)
    requires
        walk_inv(g, targets, wanted, vis, stack),
        node < vis.len(),
        vis[node as int] == 1,
        stack.len() > 0 ==> child(g, stack.last(), node),
    ensures
        reachable(g, targets, node),
        on_cycle(g, node),
        has_reachable_cycle(g, targets),
{
    assert(stack.contains(node));
    let j = choose|j: int| 0 <= j < stack.len() && stack[j] == node;
    let c = stack.subrange(j, stack.len() as int).push(node);
    lemma_path_sub(g, stack, j, stack.len() as int);
    lemma_path_push(g, stack.subrange(j, stack.len() as int), node);
    assert(is_path(g, c) && c.len() >= 2 && c[0] == node && c.last() == node);
    let r = stack.subrange(0, j + 1);
    lemma_path_sub(g, stack, 0, j + 1);
    assert(is_path(g, r) && targets.contains(r[0]) && r.last() == node);
}

/// Reaching a new node: it goes on the stack and its edge becomes wanted.
pub proof fn lemma_walk_start(
    g: GraphView,
    targets: Seq<usize>,
    wanted: Seq<bool>,
    vis: Seq<u8>,
    stack: Seq<usize>,
    node: usize,
    wanted2: Seq<bool>,
)
    requires
        graph_wf(g),
        walk_inv(g, targets, wanted, vis, stack),
        node < vis.len(),
        vis[node as int] == 0,
        stack.len() == 0 ==> targets.contains(node),
        stack.len() > 0 ==> child(g, stack.last(), node),
        wanted2 == (match g.nodes[node as int].producer {
            Some(e) => wanted.update(e as int, true),
            None => wanted,
        }),
    ensures
        walk_inv(g, targets, wanted2, vis.update(node as int, 1), stack.push(node)),
        !stack.contains(node),
{
    let v2 = vis.update(node as int, 1);
    let s2 = stack.push(node);
    assert(!stack.contains(node));
    assert forall|m: int| 0 <= m < v2.len() implies (#[trigger] v2[m] == 1 <==> s2.contains(
        m as usize,
    )) by {
        vstd::seq_lib::lemma_seq_contains_after_push(stack, node, m as usize);
    }
    if stack.len() > 0 {
        lemma_path_push(g, stack, node);
        assert(s2[0] == stack[0]);
    } else {
        assert(is_path(g, s2)) by {
            assert forall|i: int| 0 <= i < s2.len() - 1 implies #[trigger] step_ok(g, s2, i) by {}
        }
    }
    assert forall|p: Seq<usize>| #[trigger] is_path(g, p) && p.len() >= 2 && all_done(v2, p) implies p[0]
        != p.last() by {
        assert(all_done(vis, p)) by {
            assert forall|i: int| 0 <= i < p.len() implies (#[trigger] p[i]) < vis.len() && vis[p[i] as int]
                == 2 by {
                assert(v2[p[i] as int] == 2);
            }
        }
    }
    assert(reachable(g, targets, node)) by {
        if stack.len() > 0 {
            assert(reachable(g, targets, stack.last())) by {
                assert(vis[stack.last() as int] == 1) by {
                    assert(stack.contains(stack.last()));
                }
            }
            let r = choose|r: Seq<usize>| #[trigger] is_path(g, r) && targets.contains(r[0]) && r.last()
                == stack.last();
            lemma_path_push(g, r, node);
            assert(r.push(node)[0] == r[0]);
        } else {
            let r = seq![node];
            assert(is_path(g, r)) by {
                assert forall|i: int| 0 <= i < r.len() - 1 implies #[trigger] step_ok(g, r, i) by {}
            }
        }
    }
    assert forall|m: int| 0 <= m < v2.len() && #[trigger] v2[m] != 0 implies reachable(
        g,
        targets,
        m as usize,
    ) by {
        if m != node {
            assert(vis[m] != 0);
        }
    }
    assert forall|e: int| 0 <= e < wanted2.len() implies (#[trigger] wanted2[e] <==> exists|m: int|
        0 <= m < v2.len() && #[trigger] v2[m] != 0 && g.nodes[m].producer == Some(e as usize)) by {
        if exists|m: int| 0 <= m < v2.len() && #[trigger] v2[m] != 0 && g.nodes[m].producer == Some(
            e as usize,
        ) {
            let m = choose|m: int|
                0 <= m < v2.len() && #[trigger] v2[m] != 0 && g.nodes[m].producer == Some(e as usize);
            if m != node {
                assert(vis[m] != 0);
            }
        }
        if wanted[e] {
            let m = choose|m: int|
                0 <= m < vis.len() && #[trigger] vis[m] != 0 && g.nodes[m].producer == Some(e as usize);
            assert(v2[m] != 0);
        }
        if g.nodes[node as int].producer == Some(e as usize) {
            assert(v2[node as int] != 0);
        }
    }
}

/// Finishing a node whose needed nodes are all finished.
pub proof fn lemma_walk_finish(
    g: GraphView,
    targets: Seq<usize>,
    wanted: Seq<bool>,
    vis: Seq<u8>,
    stack: Seq<usize>,
    node: usize,
)
    requires
        graph_wf(g),
        walk_inv(g, targets, wanted, vis, stack.push(node)),
        !stack.contains(node),
        node < vis.len(),
        vis[node as int] == 1,
        forall|c: usize| #[trigger] child(g, node, c) ==> vis[c as int] == 2,
    ensures
        walk_inv(g, targets, wanted, vis.update(node as int, 2), stack),
{
    let v2 = vis.update(node as int, 2);
    let s2 = stack.push(node);
    assert forall|m: int| 0 <= m < v2.len() implies (#[trigger] v2[m] == 1 <==> stack.contains(
        m as usize,
    )) by {
        vstd::seq_lib::lemma_seq_contains_after_push(stack, node, m as usize);
    }
    if stack.len() > 0 {
        lemma_path_sub(g, s2, 0, stack.len() as int);
        assert(s2.subrange(0, stack.len() as int) =~= stack);
        assert(s2[0] == stack[0]);
    }
    assert forall|j: int| 0 <= j < stack.len() implies (#[trigger] stack[j]) < g.nodes.len() by {
        assert(s2[j] == stack[j]);
    }
    assert forall|m: usize, c: usize|
        m < v2.len() && v2[m as int] == 2 && #[trigger] child(g, m, c) implies v2[c as int] == 2 by {
        if m == node {
            assert(vis[c as int] == 2);
        } else {
            assert(vis[m as int] == 2);
        }
    }
    assert forall|p: Seq<usize>| #[trigger] is_path(g, p) && p.len() >= 2 && all_done(v2, p) implies p[0]
        != p.last() by {
        if p[0] != node {
            assert(vis[p[0] as int] == 2);
            lemma_path_done(g, vis, p);
        } else {
            let q = p.subrange(1, p.len() as int);
            lemma_path_sub(g, p, 1, p.len() as int);
            assert(step_ok(g, p, 0));
            assert(vis[p[1] as int] == 2);
            assert(q[0] == p[1]);
            lemma_path_done(g, vis, q);
            assert(q.last() == p.last());
            assert(vis[q.last() as int] == 2) by {
                assert(q[q.len() - 1] == q.last());
            }
        }
    }
    assert forall|m: int| 0 <= m < v2.len() && #[trigger] v2[m] != 0 implies reachable(
        g,
        targets,
        m as usize,
    ) by {
        assert(vis[m] != 0);
    }
    assert forall|e: int| 0 <= e < wanted.len() implies (#[trigger] wanted[e] <==> exists|m: int|
        0 <= m < v2.len() && #[trigger] v2[m] != 0 && g.nodes[m].producer == Some(e as usize)) by {
        if wanted[e] {
            let m = choose|m: int|
                0 <= m < vis.len() && #[trigger] vis[m] != 0 && g.nodes[m].producer == Some(e as usize);
            assert(v2[m] != 0);
        }
        if exists|m: int| 0 <= m < v2.len() && #[trigger] v2[m] != 0 && g.nodes[m].producer == Some(
            e as usize,
        ) {
            let m = choose|m: int|
                0 <= m < v2.len() && #[trigger] v2[m] != 0 && g.nodes[m].producer == Some(e as usize);
            assert(vis[m] != 0);
        }
    }
}


// ---------------------------------------------------------------------------
// The order of the walk
/// Where a depth-first walk ends: every node finished, with the marks it
/// leaves, or a node met again while it was on the stack.
pub enum Walk {
    Done(Seq<u8>),
    Cycle(usize),
}

/// The nodes that the walk visits from `n`: the inputs, then the
/// order-only inputs, of the edge that produces `n`.
pub open spec fn walk_children(g: GraphView, n: usize) -> Seq<usize> {
    match g.nodes[n as int].producer {
        Some(e) => g.edges[e as int].ins + g.edges[e as int].order_only_ins,
        None => seq![],
    }
}

/// The walk from `n` with marks `vis` (0 not reached, 1 on the stack, 2
/// finished), going at most `fuel` nodes deep.
pub open spec fn walk_from(g: GraphView, n: usize, vis: Seq<u8>, fuel: nat) -> Walk
    decreases fuel, 0int, 0int,
{
    if fuel == 0 {
        Walk::Done(vis)
    } else if vis[n as int] == 1 {
        Walk::Cycle(n)
    } else if vis[n as int] == 2 {
        Walk::Done(vis)
    } else {
        walk_list(g, n, walk_children(g, n), 0, vis.update(n as int, 1), (fuel - 1) as nat)
    }
}

/// The walk through `ids[k..]`, the children of `n`, after which `n` is
/// finished.
pub open spec fn walk_list(g: GraphView, n: usize, ids: Seq<usize>, k: int, vis: Seq<u8>, fuel: nat) -> Walk
    decreases fuel, 1int, ids.len() - k,
{
    if k < 0 || k >= ids.len() {
        Walk::Done(vis.update(n as int, 2))
    } else {
        match walk_from(g, ids[k], vis, fuel) {
            Walk::Cycle(c) => Walk::Cycle(c),
            Walk::Done(v2) => walk_list(g, n, ids, k + 1, v2, fuel),
        }
    }
}

/// The walks from the targets `ts[k..]`, in order.
pub open spec fn walk_targets(g: GraphView, ts: Seq<usize>, k: int, vis: Seq<u8>, fuel: nat) -> Walk
    decreases ts.len() - k,
{
    if k < 0 || k >= ts.len() {
        Walk::Done(vis)
    } else {
        match walk_from(g, ts[k], vis, fuel) {
            Walk::Cycle(c) => Walk::Cycle(c),
            Walk::Done(v2) => walk_targets(g, ts, k + 1, v2, fuel),
        }
    }
}

/// The node that the walk from the targets meets again on its stack, if
/// any: the one a cycle error names.
pub open spec fn cycle_found(g: GraphView, targets: Seq<usize>) -> Option<usize> {
    match walk_targets(g, targets, 0, Seq::new(g.nodes.len(), |i: int| 0u8), (g.nodes.len() + 1) as nat) {
        Walk::Cycle(c) => Some(c),
        Walk::Done(_) => None,
    }
}

pub proof fn lemma_zeros_len(v: Seq<u8>)
    ensures
        zeros(v) <= v.len(),
    decreases v.len(),
{
    if v.len() > 0 {
        lemma_zeros_len(v.drop_last());
    }
}

fn cycle_error(path: &str) -> (r: KageError)
    ensures
        r@ == build_error(cycle_msg(path@)),
{
    let mut msg = String::new();
    push_str(&mut msg, "dependency cycle involving '");
    push_str(&mut msg, path);
    push_str(&mut msg, "'");
    KageError::build(msg)
}

impl Graph {
    /// Marks the edges that `node` needs, depth first; a node reached again
    /// while it is on the stack is a cycle.
    fn walk_wanted(
        &self,
        node: NodeId,
        wanted: &mut Vec<bool>,
        visiting: &mut Vec<u8>,
        Ghost(targets): Ghost<Seq<usize>>,
        Ghost(stack): Ghost<Seq<usize>>,
        Ghost(fuel): Ghost<nat>,
    ) -> (r: Result<()>)
        requires
            graph_wf(self@),
            walk_inv(self@, targets, old(wanted)@, old(visiting)@, stack),
            node < self@.nodes.len(),
            fuel > zeros(old(visiting)@),
            stack.len() == 0 ==> targets.contains(node),
            stack.len() > 0 ==> child(self@, stack.last(), node),
        ensures
            final(wanted)@.len() == old(wanted)@.len(),
            final(visiting)@.len() == old(visiting)@.len(),
            r is Ok ==> walk_inv(self@, targets, final(wanted)@, final(visiting)@, stack)
                && final(visiting)@[node as int] == 2 && grew(old(visiting)@, final(visiting)@),
            r matches Err(e) ==> has_reachable_cycle(self@, targets) && is_cycle_error(
                self@,
                targets,
                e@,
            ),
            r is Ok ==> walk_from(self@, node, old(visiting)@, fuel) == Walk::Done(final(visiting)@),
            r matches Err(e) ==> walk_from(self@, node, old(visiting)@, fuel) matches Walk::Cycle(c) && c
                < self@.nodes.len() && e@ == build_error(cycle_msg(path_of(self@, c))),
        decreases zeros(old(visiting)@),
    {
        let state = visiting[node];
        if state == 1 {
            proof {
                lemma_walk_cycle(self@, targets, wanted@, visiting@, stack, node);
            }
            assert(self@.nodes[node as int] == self.nodes@[node as int]@);
            return Err(cycle_error(self.nodes[node].path.as_str()));
        }
        if state == 2 {
            return Ok(());
        }
        let ghost v0 = visiting@;
        let ghost w0 = wanted@;
        visiting.set(node, 1);
        assert(self@.nodes[node as int] == self.nodes@[node as int]@);
        if let Some(eid) = self.nodes[node].producer {
            wanted.set(eid, true);
        }
        let ghost s2 = stack.push(node);
        proof {
            lemma_walk_start(self@, targets, w0, v0, stack, node, wanted@);
            assert(v0[node as int] == 0 && visiting@[node as int] != 0);
            lemma_zeros_grew(v0, visiting@);
        }
        let ghost v1 = visiting@;
        let ghost ids = walk_children(self@, node);
        assert(v1 == v0.update(node as int, 1));
        assert(walk_from(self@, node, v0, fuel) == walk_list(self@, node, ids, 0, v1, (fuel - 1) as nat));
        if let Some(eid) = self.nodes[node].producer {
            let edge = &self.edges[eid];
            assert(self@.edges[eid as int] == edge@);
            assert(ids == edge@.ins + edge@.order_only_ins);
            let mut k: usize = 0;
            while k < edge.ins.len()
                invariant
                    ids == edge@.ins + edge@.order_only_ins,
                    fuel > zeros(v0),
                    walk_from(self@, node, v0, fuel) == walk_list(self@, node, ids, k as int, visiting@, (fuel - 1) as nat),
                    graph_wf(self@),
                    edge@ == self@.edges[eid as int],
                    self@.nodes[node as int].producer == Some(eid),
                    node < self@.nodes.len(),
                    !stack.contains(node),
                    k <= edge.ins@.len(),
                    walk_inv(self@, targets, wanted@, visiting@, s2),
                    s2 == stack.push(node),
                    grew(v1, visiting@),
                    v1[node as int] == 1,
                    zeros(v1) < zeros(v0),
                    v0 == old(visiting)@,
                    wanted@.len() == old(wanted)@.len(),
                    visiting@.len() == old(visiting)@.len(),
                    forall|j: int| 0 <= j < k ==> visiting@[#[trigger] edge.ins@[j] as int] == 2,
                decreases edge.ins@.len() - k,
            {
                let c = edge.ins[k];
                assert(edge.ins@.contains(c));
                assert(child(self@, node, c));
                proof {
                    lemma_zeros_grew(v1, visiting@);
                }
                let ghost vb = visiting@;
                assert(ids[k as int] == c);
                match self.walk_wanted(c, wanted, visiting, Ghost(targets), Ghost(s2), Ghost((fuel - 1) as nat)) {
                    Ok(()) => {},
                    Err(e) => {
                        return Err(e);
                    },
                }
                assert forall|j: int| 0 <= j < k + 1 implies visiting@[#[trigger] edge.ins@[j] as int]
                    == 2 by {
                    if j < k {
                        assert(vb[edge.ins@[j] as int] != 0);
                    }
                }
                k = k + 1;
            }
            let ghost v2 = visiting@;
            let mut k: usize = 0;
            while k < edge.order_only_ins.len()
                invariant
                    ids == edge@.ins + edge@.order_only_ins,
                    fuel > zeros(v0),
                    walk_from(self@, node, v0, fuel) == walk_list(
                        self@,
                        node,
                        ids,
                        edge@.ins.len() + k,
                        visiting@,
                        (fuel - 1) as nat,
                    ),
                    graph_wf(self@),
                    edge@ == self@.edges[eid as int],
                    self@.nodes[node as int].producer == Some(eid),
                    node < self@.nodes.len(),
                    !stack.contains(node),
                    k <= edge.order_only_ins@.len(),
                    walk_inv(self@, targets, wanted@, visiting@, s2),
                    s2 == stack.push(node),
                    grew(v1, visiting@),
                    grew(v2, visiting@),
                    v1[node as int] == 1,
                    zeros(v1) < zeros(v0),
                    v0 == old(visiting)@,
                    wanted@.len() == old(wanted)@.len(),
                    visiting@.len() == old(visiting)@.len(),
                    forall|j: int| 0 <= j < edge.ins@.len() ==> v2[#[trigger] edge.ins@[j] as int] == 2,
                    forall|j: int|
                        0 <= j < k ==> visiting@[#[trigger] edge.order_only_ins@[j] as int] == 2,
                decreases edge.order_only_ins@.len() - k,
            {
                let c = edge.order_only_ins[k];
                assert(edge.order_only_ins@.contains(c));
                assert(child(self@, node, c));
                proof {
                    lemma_zeros_grew(v1, visiting@);
                }
                let ghost vb = visiting@;
                assert(ids[edge@.ins.len() + k] == c);
                match self.walk_wanted(c, wanted, visiting, Ghost(targets), Ghost(s2), Ghost((fuel - 1) as nat)) {
                    Ok(()) => {},
                    Err(e) => {
                        return Err(e);
                    },
                }
                assert forall|j: int|
                    0 <= j < k + 1 implies visiting@[#[trigger] edge.order_only_ins@[j] as int] == 2 by {
                    if j < k {
                        assert(vb[edge.order_only_ins@[j] as int] != 0);
                    }
                }
                k = k + 1;
            }
            assert forall|c: usize| #[trigger] child(self@, node, c) implies visiting@[c as int] == 2 by {
                if edge.ins@.contains(c) {
                    let j = choose|j: int| 0 <= j < edge.ins@.len() && edge.ins@[j] == c;
                    assert(v2[edge.ins@[j] as int] == 2);
                } else {
                    let j = choose|j: int|
                        0 <= j < edge.order_only_ins@.len() && edge.order_only_ins@[j] == c;
                    assert(visiting@[edge.order_only_ins@[j] as int] == 2);
                }
            }
        }
        let ghost vf = visiting@;
        assert(vf[node as int] == 1) by {
            assert(s2.contains(node));
        }
        assert(walk_from(self@, node, v0, fuel) == walk_list(self@, node, ids, ids.len() as int, vf, (fuel - 1) as nat));
        visiting.set(node, 2);
        proof {
            lemma_walk_finish(self@, targets, wanted@, vf, stack, node);
            assert forall|m: int| 0 <= m < v0.len() && #[trigger] v0[m] != 0 implies visiting@[m] == v0[m] by {
                assert(v1[m] == v0[m]);
                if m != node {
                    assert(vf[m] == v1[m]);
                }
            }
        }
        Ok(())
    }

    /// The edges that the targets need, by number; a cycle through a needed
    /// node is an error.
    pub fn wanted_edges(&self, targets: &[NodeId]) -> (r: Result<Vec<bool>>)
        requires
            graph_wf(self@),
            ids_below(targets@, self@.nodes.len() as int),
        ensures
            r is Ok == !has_reachable_cycle(self@, targets@),
            r matches Ok(w) ==> w@.len() == self@.edges.len() && forall|e: int|
                0 <= e < w@.len() ==> (#[trigger] w@[e] <==> is_wanted(self@, targets@, e)),
            r matches Err(e) ==> is_cycle_error(self@, targets@, e@),
            r matches Err(e) ==> cycle_found(self@, targets@) matches Some(c) && e@ == build_error(
                cycle_msg(path_of(self@, c)),
            ),
    {
        let mut wanted: Vec<bool> = vec![false; self.edges.len()];
        let mut visiting: Vec<u8> = vec![0u8; self.nodes.len()];
        let ghost fuel = (self@.nodes.len() + 1) as nat;
        assert(visiting@ =~= Seq::new(self@.nodes.len(), |i: int| 0u8));
        assert(self.nodes.len() == self.nodes@.len());
        assert(self.edges.len() == self.edges@.len());
        assert(walk_inv(self@, targets@, wanted@, visiting@, seq![])) by {
            assert forall|p: Seq<usize>| #[trigger] is_path(self@, p) && p.len() >= 2 && all_done(
                visiting@,
                p,
            ) implies p[0] != p.last() by {
                assert(visiting@[p[0] as int] == 2);
            }
        }
        let mut k: usize = 0;
        while k < targets.len()
            invariant
                graph_wf(self@),
                ids_below(targets@, self@.nodes.len() as int),
                k <= targets@.len(),
                walk_inv(self@, targets@, wanted@, visiting@, seq![]),
                forall|j: int| 0 <= j < k ==> visiting@[#[trigger] targets@[j] as int] == 2,
                fuel == self@.nodes.len() + 1,
                walk_targets(self@, targets@, 0, Seq::new(self@.nodes.len(), |i: int| 0u8), fuel)
                    == walk_targets(self@, targets@, k as int, visiting@, fuel),
            decreases targets@.len() - k,
        {
            let t = targets[k];
            assert(targets@.contains(t));
            let ghost vb = visiting@;
            proof {
                lemma_zeros_len(visiting@);
            }
            match self.walk_wanted(t, &mut wanted, &mut visiting, Ghost(targets@), Ghost(Seq::empty()), Ghost(fuel)) {
                Ok(()) => {},
                Err(e) => {
                    return Err(e);
                },
            }
            assert forall|j: int| 0 <= j < k + 1 implies visiting@[#[trigger] targets@[j] as int] == 2 by {
                if j < k {
                    assert(vb[targets@[j] as int] != 0);
                }
            }
            k = k + 1;
        }
        proof {
            lemma_walk_complete(self@, targets@, wanted@, visiting@);
        }
        Ok(wanted)
    }
}

/// When every target is finished, the finished nodes are exactly those the
/// targets need, none lies on a cycle, and the wanted edges are exactly the
/// producers of needed nodes.
pub proof fn lemma_walk_complete(g: GraphView, targets: Seq<usize>, wanted: Seq<bool>, vis: Seq<u8>)
    requires
        graph_wf(g),
        walk_inv(g, targets, wanted, vis, seq![]),
        ids_below(targets, vis.len() as int),
        forall|j: int| 0 <= j < targets.len() ==> vis[#[trigger] targets[j] as int] == 2,
    ensures
        !has_reachable_cycle(g, targets),
        forall|e: int| 0 <= e < wanted.len() ==> (#[trigger] wanted[e] <==> is_wanted(g, targets, e)),
{
    assert forall|n: usize| #[trigger] reachable(g, targets, n) implies n < vis.len() && vis[n as int] == 2 by {
        let p = choose|p: Seq<usize>| #[trigger] is_path(g, p) && targets.contains(p[0]) && p.last() == n;
        let j = choose|j: int| 0 <= j < targets.len() && targets[j] == p[0];
        assert(vis[targets[j] as int] == 2);
        lemma_path_done(g, vis, p);
        assert(p[p.len() - 1] == p.last());
    }
    if has_reachable_cycle(g, targets) {
        let n = choose|n: usize| #[trigger] reachable(g, targets, n) && on_cycle(g, n);
        let c = choose|c: Seq<usize>| #[trigger] is_path(g, c) && c.len() >= 2 && c[0] == n && c.last() == n;
        assert(vis[n as int] == 2);
        lemma_path_done(g, vis, c);
    }
    assert forall|e: int| 0 <= e < wanted.len() implies (#[trigger] wanted[e] <==> is_wanted(g, targets, e)) by {
        if wanted[e] {
            let m = choose|m: int| 0 <= m < vis.len() && #[trigger] vis[m] != 0 && g.nodes[m].producer == Some(e as usize);
            assert(reachable(g, targets, m as usize));
        }
        if is_wanted(g, targets, e) {
            let n = choose|n: usize| #[trigger] reachable(g, targets, n) && n < g.nodes.len() && g.nodes[n as int].producer == Some(e as usize);
            assert(vis[n as int] != 0);
        }
    }
}


// ---------------------------------------------------------------------------
// Why an edge is dirty
pub type StatView = Map<Seq<char>, Option<FileMeta>>;

pub open spec fn path_of(g: GraphView, n: usize) -> Seq<char> {
    g.nodes[n as int].path
}

/// The first output from the `k`th on that does not exist.
pub open spec fn missing_output_from(g: GraphView, outs: Seq<usize>, st: StatView, k: int) -> Option<
    Seq<char>,
>
    decreases outs.len() - k,
{
    if k < 0 || k >= outs.len() {
        None
    } else if st[path_of(g, outs[k])] is None {
        Some(path_of(g, outs[k]))
    } else {
        missing_output_from(g, outs, st, k + 1)
    }
}

/// The first output from the `k`th on whose recorded command differs.
pub open spec fn log_reason_from(
    g: GraphView,
    outs: Seq<usize>,
    lg: Map<Seq<char>, u64>,
    hash: u64,
    k: int,
) -> Option<Seq<char>>
    decreases outs.len() - k,
{
    if k < 0 || k >= outs.len() {
        None
    } else {
        let p = path_of(g, outs[k]);
        if !lg.contains_key(p) {
            Some("'"@ + p + "' has no recorded command"@)
        } else if lg[p] != hash {
            Some("command line changed for '"@ + p + "'"@)
        } else {
            log_reason_from(g, outs, lg, hash, k + 1)
        }
    }
}

/// The first input from the `k`th on whose producer is dirty.
pub open spec fn dirty_input_from(g: GraphView, ins: Seq<usize>, d: Seq<bool>, k: int) -> Option<
    Seq<char>,
>
    decreases ins.len() - k,
{
    if k < 0 || k >= ins.len() {
        None
    } else {
        match g.nodes[ins[k] as int].producer {
            Some(p) if d[p as int] => Some(path_of(g, ins[k])),
            _ => dirty_input_from(g, ins, d, k + 1),
        }
    }
}

/// The newest modification time seen so far, and the path that has it.
pub struct Newest {
    pub time: Option<i128>,
    pub name: Seq<char>,
}

/// A later time replaces the newest one; the first of equal times stays.
pub open spec fn newest_step(n: Newest, m: Option<FileMeta>, p: Seq<char>) -> Newest {
    match m {
        None => n,
        Some(meta) => if n.time is None || meta.mtime > n.time->0 {
            Newest { time: Some(meta.mtime), name: p }
        } else {
            n
        },
    }
}

pub open spec fn newest_ins_from(g: GraphView, ins: Seq<usize>, st: StatView, k: int, n: Newest) -> Newest
    decreases ins.len() - k,
{
    if k < 0 || k >= ins.len() {
        n
    } else {
        newest_ins_from(g, ins, st, k + 1, newest_step(n, st[path_of(g, ins[k])], path_of(g, ins[k])))
    }
}

pub struct ImplicitScan {
    pub missing: Option<Seq<char>>,
    pub newest: Newest,
}

/// The implicit inputs from the `k`th on: the first missing one stops.
pub open spec fn implicit_from(imp: Seq<Seq<char>>, st: StatView, k: int, n: Newest) -> ImplicitScan
    decreases imp.len() - k,
{
    if k < 0 || k >= imp.len() {
        ImplicitScan { missing: None, newest: n }
    } else {
        match st[imp[k]] {
            None => ImplicitScan { missing: Some(imp[k]), newest: n },
            Some(m) => implicit_from(imp, st, k + 1, newest_step(n, Some(m), imp[k])),
        }
    }
}

/// The first existing output from the `k`th on that is older than `tin`.
pub open spec fn older_output_from(g: GraphView, outs: Seq<usize>, st: StatView, tin: i128, k: int) -> Option<
    Seq<char>,
>
    decreases outs.len() - k,
{
    if k < 0 || k >= outs.len() {
        None
    } else {
        match st[path_of(g, outs[k])] {
            Some(m) if tin > m.mtime => Some(path_of(g, outs[k])),
            _ => older_output_from(g, outs, st, tin, k + 1),
        }
    }
}

pub open spec fn no_newest() -> Newest {
    Newest { time: None, name: seq![] }
}

/// A missing implicit input, or the newest input newer than an output.
pub open spec fn mtime_reason(edge: EdgeView, g: GraphView, st: StatView, imp: Seq<Seq<char>>) -> Option<
    Seq<char>,
> {
    let sc = implicit_from(imp, st, 0, newest_ins_from(g, edge.ins, st, 0, no_newest()));
    match sc.missing {
        Some(ip) => Some("implicit input '"@ + ip + "' is missing"@),
        None => match sc.newest.time {
            None => None,
            Some(tin) => match older_output_from(g, edge.outs, st, tin, 0) {
                None => None,
                Some(p) => Some("input '"@ + sc.newest.name + "' is newer than '"@ + p + "'"@),
            },
        },
    }
}

/// Why edge `e` must run, checked in this order: a missing output, a
/// missing depfile, a changed or unrecorded command, a dirty input, a
/// missing implicit input, an input newer than an output.
pub open spec fn dirty_reason(
    g: GraphView,
    e: int,
    d: Seq<bool>,
    st: StatView,
    lg: Map<Seq<char>, u64>,
    imp: Seq<Seq<char>>,
) -> Option<Seq<char>> {
    let edge = g.edges[e];
    match missing_output_from(g, edge.outs, st, 0) {
        Some(p) => Some("output '"@ + p + "' is missing"@),
        None => if edge.depformat == DepFormat::Gcc && edge.depfile is Some && st[edge.depfile->0] is None {
            Some("depfile '"@ + edge.depfile->0 + "' is missing"@)
        } else {
            match log_reason_from(g, edge.outs, lg, edge.command_hash, 0) {
                Some(r) => Some(r),
                None => match dirty_input_from(g, edge.ins, d, 0) {
                    Some(p) => Some("input '"@ + p + "' is dirty"@),
                    None => mtime_reason(edge, g, st, imp),
                },
            }
        },
    }
}

/// The settings that planning reads.
pub struct PlanCtx {
    pub targets: Seq<usize>,
    pub st: StatView,
    pub lg: Map<Seq<char>, u64>,
    pub imp: Seq<Seq<Seq<char>>>,
    pub always_make: bool,
    pub explain: bool,
}

pub open spec fn is_dirty(g: GraphView, c: PlanCtx, e: int, d: Seq<bool>) -> bool {
    c.always_make || dirty_reason(g, e, d, c.st, c.lg, c.imp[e]) is Some
}

pub open spec fn reason_value(g: GraphView, c: PlanCtx, e: int, d: Seq<bool>) -> Option<Seq<char>> {
    if !c.explain {
        None
    } else if c.always_make {
        Some("forced rebuild (-B)"@)
    } else {
        dirty_reason(g, e, d, c.st, c.lg, c.imp[e])
    }
}

/// An input of edge `e` that no edge produces and that does not exist.
pub open spec fn source_missing(g: GraphView, st: StatView, e: int) -> bool {
    exists|n: usize|
        (g.edges[e].ins.contains(n) || g.edges[e].order_only_ins.contains(n)) && #[trigger] g.nodes[n as int].producer is None
            && st_missing(st, path_of(g, n))
}

pub open spec fn missing_input_msg(p: Seq<char>, out: Seq<char>) -> Seq<char> {
    "missing input '"@ + p + "' needed by '"@ + out + "'"@
}

pub open spec fn missing_order_only_msg(p: Seq<char>, out: Seq<char>) -> Seq<char> {
    "missing order-only input '"@ + p + "' needed by '"@ + out + "'"@
}

/// The error for a missing source input of a wanted edge.
pub open spec fn is_missing_error(g: GraphView, c: PlanCtx, err: ErrorView) -> bool {
    exists|e: int, n: usize|
        #![trigger g.edges[e], g.nodes[n as int]]
        0 <= e < g.edges.len() && is_wanted(g, c.targets, e) && g.nodes[n as int].producer is None
            && st_missing(c.st, path_of(g, n)) && {
            let out = path_of(g, g.edges[e].outs[0]);
            ||| g.edges[e].ins.contains(n) && err == build_error(missing_input_msg(path_of(g, n), out))
            ||| g.edges[e].order_only_ins.contains(n) && err == build_error(
                missing_order_only_msg(path_of(g, n), out),
            )
        }
}

pub open spec fn st_missing(st: StatView, p: Seq<char>) -> bool {
    st[p] is None
}

/// Some wanted edge has a missing source input.
pub open spec fn any_source_missing(g: GraphView, c: PlanCtx) -> bool {
    exists|e: int| 0 <= e < g.edges.len() && is_wanted(g, c.targets, e) && #[trigger] source_missing(g, c.st, e)
}

/// Every path that planning looks up has a recorded stat result.
pub open spec fn stat_covers(g: GraphView, st: StatView, imp: Seq<Seq<Seq<char>>>) -> bool {
    &&& forall|n: int| 0 <= n < g.nodes.len() ==> st.contains_key(#[trigger] g.nodes[n].path)
    &&& forall|e: int|
        0 <= e < g.edges.len() && (#[trigger] g.edges[e]).depfile is Some ==> st.contains_key(
            g.edges[e].depfile->0,
        )
    &&& forall|e: int, k: int|
        0 <= e < imp.len() && 0 <= k < imp[e].len() ==> st.contains_key(#[trigger] imp[e][k])
}

/// Edge `e` needs edge `p`: `p` produces an input or order-only input of `e`.
pub open spec fn dep(g: GraphView, e: usize, p: usize) -> bool {
    exists|n: usize|
        (g.edges[e as int].ins.contains(n) || g.edges[e as int].order_only_ins.contains(n))
            && #[trigger] g.nodes[n as int].producer == Some(p)
}


/// Consecutive edges of `chain` need each other.
pub open spec fn is_dep_chain(g: GraphView, chain: Seq<usize>) -> bool {
    &&& ids_below(chain, g.edges.len() as int)
    &&& forall|i: int| 0 <= i < chain.len() - 1 ==> #[trigger] dep(g, chain[i], chain[i + 1])
}

pub open spec fn input_of(g: GraphView, e: usize, n: usize) -> bool {
    g.edges[e as int].ins.contains(n) || g.edges[e as int].order_only_ins.contains(n)
}

/// A wanted edge that needs itself, through other edges, makes a cycle
/// through a needed node.
pub proof fn lemma_dep_cycle(g: GraphView, targets: Seq<usize>, chain: Seq<usize>)
    requires
        graph_wf(g),
        is_dep_chain(g, chain),
        chain.len() >= 2,
        chain[0] == chain.last(),
        is_wanted(g, targets, chain[0] as int),
    ensures
        has_reachable_cycle(g, targets),
{
    let k = chain.len() - 1;
    let ws = Seq::new(
        k as nat,
        |i: int|
            choose|n: usize|
                input_of(g, chain[i], n) && #[trigger] g.nodes[n as int].producer == Some(chain[i + 1]),
    );
    assert forall|i: int| 0 <= i < k implies input_of(g, chain[i], #[trigger] ws[i]) && g.nodes[ws[i] as int].producer
        == Some(chain[i + 1]) && ws[i] < g.nodes.len() by {
        assert(dep(g, chain[i], chain[i + 1]));
        let n = choose|n: usize|
            input_of(g, chain[i], n) && #[trigger] g.nodes[n as int].producer == Some(chain[i + 1]);
        assert(input_of(g, chain[i], n) && g.nodes[n as int].producer == Some(chain[i + 1]));
        assert(chain[i] < g.edges.len());
        let e = chain[i] as int;
        if g.edges[e].ins.contains(ws[i]) {
            let j = choose|j: int| 0 <= j < g.edges[e].ins.len() && g.edges[e].ins[j] == ws[i];
            assert(g.edges[e].ins[j] < g.nodes.len());
        } else {
            let j = choose|j: int|
                0 <= j < g.edges[e].order_only_ins.len() && g.edges[e].order_only_ins[j] == ws[i];
            assert(g.edges[e].order_only_ins[j] < g.nodes.len());
        }
    }
    let c = ws.push(ws[0]);
    assert(is_path(g, c)) by {
        assert forall|i: int| 0 <= i < c.len() - 1 implies #[trigger] step_ok(g, c, i) by {
            assert(c[i] == ws[i]);
            if i + 1 < k {
                assert(c[i + 1] == ws[i + 1]);
                assert(input_of(g, chain[i + 1], ws[i + 1]));
            } else {
                assert(c[i + 1] == ws[0]);
                assert(chain[i + 1] == chain[0]);
                assert(input_of(g, chain[0], ws[0]));
            }
        }
    }
    assert(on_cycle(g, ws[0])) by {
        assert(c[0] == ws[0] && c.last() == ws[0] && c.len() >= 2);
    }
    let n = choose|n: usize|
        #[trigger] reachable(g, targets, n) && n < g.nodes.len() && g.nodes[n as int].producer == Some(
            chain[0],
        );
    let r = choose|r: Seq<usize>| #[trigger] is_path(g, r) && targets.contains(r[0]) && r.last() == n;
    assert(child(g, n, ws[0])) by {
        assert(input_of(g, chain[0], ws[0]));
    }
    lemma_path_push(g, r, ws[0]);
    assert(r.push(ws[0])[0] == r[0]);
    assert(reachable(g, targets, ws[0]));
}


/// The stat result recorded for a path that planning needs.
fn stat_of(stat: &StatCache, path: &str) -> (r: Option<FileMeta>)
    requires
        stat.entries().contains_key(path@),
    ensures
        r == stat.entries()[path@],
{
    match stat.lookup(path) {
        Some(m) => m,
        None => None,
    }
}

/// `a` followed by `b` and `c`.
fn concat3(a: &str, b: &str, c: &str) -> (r: String)
    ensures
        r@ == a@ + b@ + c@,
{
    let mut r = String::new();
    push_str(&mut r, a);
    push_str(&mut r, b);
    push_str(&mut r, c);
    r
}

impl Graph {
    fn missing_output(&self, outs: &Vec<NodeId>, stat: &StatCache) -> (r: Option<String>)
        requires
            graph_wf(self@),
            ids_below(outs@, self@.nodes.len() as int),
            stat_covers(self@, stat.entries(), seq![]) || forall|n: int|
                0 <= n < self@.nodes.len() ==> stat.entries().contains_key(#[trigger] self@.nodes[n].path),
        ensures
            opt_text(r) == missing_output_from(self@, outs@, stat.entries(), 0),
    {
        let mut k: usize = 0;
        while k < outs.len()
            invariant
                k <= outs@.len(),
                ids_below(outs@, self@.nodes.len() as int),
                forall|n: int|
                    0 <= n < self@.nodes.len() ==> stat.entries().contains_key(#[trigger] self@.nodes[n].path),
                missing_output_from(self@, outs@, stat.entries(), 0) == missing_output_from(
                    self@,
                    outs@,
                    stat.entries(),
                    k as int,
                ),
            decreases outs@.len() - k,
        {
            let o = outs[k];
            assert(self@.nodes[o as int] == self.nodes@[o as int]@);
            let path = self.nodes[o].path.as_str();
            if stat_of(stat, path).is_none() {
                return Some(path.to_owned());
            }
            k = k + 1;
        }
        None
    }

    fn log_reason(&self, outs: &Vec<NodeId>, log: &BuildLog, hash: u64) -> (r: Option<String>)
        requires
            ids_below(outs@, self@.nodes.len() as int),
        ensures
            opt_text(r) == log_reason_from(self@, outs@, log.hashes(), hash, 0),
    {
        let mut k: usize = 0;
        while k < outs.len()
            invariant
                k <= outs@.len(),
                ids_below(outs@, self@.nodes.len() as int),
                log_reason_from(self@, outs@, log.hashes(), hash, 0) == log_reason_from(
                    self@,
                    outs@,
                    log.hashes(),
                    hash,
                    k as int,
                ),
            decreases outs@.len() - k,
        {
            let o = outs[k];
            assert(self@.nodes[o as int] == self.nodes@[o as int]@);
            let path = self.nodes[o].path.as_str();
            match log.get(path) {
                None => {
                    return Some(concat3("'", path, "' has no recorded command"));
                },
                Some(h) => {
                    if h != hash {
                        return Some(concat3("command line changed for '", path, "'"));
                    }
                },
            }
            k = k + 1;
        }
        None
    }

    fn dirty_input(&self, ins: &Vec<NodeId>, dirty: &Vec<bool>) -> (r: Option<String>)
        requires
            graph_wf(self@),
            ids_below(ins@, self@.nodes.len() as int),
            dirty@.len() == self@.edges.len(),
        ensures
            opt_text(r) == dirty_input_from(self@, ins@, dirty@, 0),
    {
        let mut k: usize = 0;
        while k < ins.len()
            invariant
                k <= ins@.len(),
                graph_wf(self@),
                ids_below(ins@, self@.nodes.len() as int),
                dirty@.len() == self@.edges.len(),
                dirty_input_from(self@, ins@, dirty@, 0) == dirty_input_from(
                    self@,
                    ins@,
                    dirty@,
                    k as int,
                ),
            decreases ins@.len() - k,
        {
            let i = ins[k];
            assert(self@.nodes[i as int] == self.nodes@[i as int]@);
            if let Some(p) = self.nodes[i].producer {
                if dirty[p] {
                    return Some(self.nodes[i].path.clone());
                }
            }
            k = k + 1;
        }
        None
    }

    fn mtime_check(&self, edge: &Edge, stat: &StatCache, imp: &Vec<String>) -> (r: Option<String>)
        requires
            graph_wf(self@),
            ids_below(edge@.ins, self@.nodes.len() as int),
            ids_below(edge@.outs, self@.nodes.len() as int),
            forall|n: int|
                0 <= n < self@.nodes.len() ==> stat.entries().contains_key(#[trigger] self@.nodes[n].path),
            forall|k: int| 0 <= k < imp@.len() ==> stat.entries().contains_key(#[trigger] imp@[k]@),
        ensures
            opt_text(r) == mtime_reason(edge@, self@, stat.entries(), views(imp@)),
    {
        let ghost st = stat.entries();
        let mut newest: Option<i128> = None;
        let mut newest_name = String::new();
        let mut k: usize = 0;
        while k < edge.ins.len()
            invariant
                k <= edge.ins@.len(),
                ids_below(edge@.ins, self@.nodes.len() as int),
                st == stat.entries(),
                forall|n: int|
                    0 <= n < self@.nodes.len() ==> st.contains_key(#[trigger] self@.nodes[n].path),
                newest_ins_from(self@, edge@.ins, st, 0, no_newest()) == newest_ins_from(
                    self@,
                    edge@.ins,
                    st,
                    k as int,
                    Newest { time: newest, name: newest_name@ },
                ),
            decreases edge.ins@.len() - k,
        {
            let i = edge.ins[k];
            assert(self@.nodes[i as int] == self.nodes@[i as int]@);
            let path = &self.nodes[i].path;
            match stat_of(stat, path.as_str()) {
                None => {},
                Some(meta) => {
                    let later = match newest {
                        None => true,
                        Some(t) => meta.mtime > t,
                    };
                    if later {
                        newest = Some(meta.mtime);
                        newest_name = path.clone();
                    }
                },
            }
            k = k + 1;
        }
        let ghost iv = views(imp@);
        let mut k: usize = 0;
        while k < imp.len()
            invariant
                k <= imp@.len(),
                iv == views(imp@),
                st == stat.entries(),
                forall|j: int| 0 <= j < imp@.len() ==> st.contains_key(#[trigger] imp@[j]@),
                implicit_from(iv, st, 0, newest_ins_from(self@, edge@.ins, st, 0, no_newest()))
                    == implicit_from(iv, st, k as int, Newest { time: newest, name: newest_name@ }),
            decreases imp@.len() - k,
        {
            assert(iv[k as int] == imp@[k as int]@);
            match stat_of(stat, imp[k].as_str()) {
                None => {
                    return Some(concat3("implicit input '", imp[k].as_str(), "' is missing"));
                },
                Some(meta) => {
                    let later = match newest {
                        None => true,
                        Some(t) => meta.mtime > t,
                    };
                    if later {
                        newest = Some(meta.mtime);
                        newest_name = imp[k].clone();
                    }
                },
            }
            k = k + 1;
        }
        let tin = match newest {
            None => {
                return None;
            },
            Some(t) => t,
        };
        let mut k: usize = 0;
        while k < edge.outs.len()
            invariant
                k <= edge.outs@.len(),
                ids_below(edge@.outs, self@.nodes.len() as int),
                st == stat.entries(),
                forall|n: int|
                    0 <= n < self@.nodes.len() ==> st.contains_key(#[trigger] self@.nodes[n].path),
                iv == views(imp@),
                implicit_from(iv, st, 0, newest_ins_from(self@, edge@.ins, st, 0, no_newest()))
                    == (ImplicitScan {
                    missing: None,
                    newest: Newest { time: Some(tin), name: newest_name@ },
                }),
                older_output_from(self@, edge@.outs, st, tin, 0) == older_output_from(
                    self@,
                    edge@.outs,
                    st,
                    tin,
                    k as int,
                ),
            decreases edge.outs@.len() - k,
        {
            let o = edge.outs[k];
            assert(self@.nodes[o as int] == self.nodes@[o as int]@);
            let path = self.nodes[o].path.as_str();
            if let Some(meta) = stat_of(stat, path) {
                if tin > meta.mtime {
                    let mut r = concat3("input '", newest_name.as_str(), "' is newer than '");
                    push_str(&mut r, path);
                    push_str(&mut r, "'");
                    return Some(r);
                }
            }
            k = k + 1;
        }
        None
    }
}


// ---------------------------------------------------------------------------
// The state of dirty checking
pub open spec fn imp_views(v: Seq<Vec<String>>) -> Seq<Seq<Seq<char>>> {
    v.map_values(|x: Vec<String>| views(x@))
}

pub open spec fn reason_views(v: Seq<Option<String>>) -> Seq<Option<Seq<char>>> {
    v.map_values(|o: Option<String>| opt_text(o))
}

/// Edge `e` has been checked and is off the stack.
pub open spec fn finished(seen: Seq<bool>, stack: Seq<usize>, e: int) -> bool {
    seen[e] && !stack.contains(e as usize)
}

/// The producers of `e`'s inputs have been checked.
pub open spec fn producers_finished(g: GraphView, seen: Seq<bool>, stack: Seq<usize>, e: int) -> bool {
    forall|n: usize|
        input_of(g, e as usize, n) && #[trigger] g.nodes[n as int].producer is Some ==> finished(
            seen,
            stack,
            g.nodes[n as int].producer->0 as int,
        )
}

/// A checked edge: its sources exist, what it needs was checked first, and
/// its flag and reason follow from the flags of what it reads.
pub open spec fn finished_ok(
    g: GraphView,
    c: PlanCtx,
    e: int,
    d: Seq<bool>,
    rs: Seq<Option<Seq<char>>>,
    seen: Seq<bool>,
    stack: Seq<usize>,
) -> bool {
    &&& !source_missing(g, c.st, e)
    &&& producers_finished(g, seen, stack, e)
    &&& d[e] == is_dirty(g, c, e, d)
    &&& rs[e] == reason_value(g, c, e, d)
}

pub open spec fn dirty_inv(
    g: GraphView,
    c: PlanCtx,
    seen: Seq<bool>,
    d: Seq<bool>,
    rs: Seq<Option<Seq<char>>>,
    stack: Seq<usize>,
) -> bool {
    &&& seen.len() == g.edges.len()
    &&& d.len() == g.edges.len()
    &&& rs.len() == g.edges.len()
    &&& forall|e: int| 0 <= e < g.edges.len() && #[trigger] seen[e] ==> is_wanted(g, c.targets, e)
    &&& forall|e: int|
        0 <= e < g.edges.len() && !finished(seen, stack, e) ==> !(#[trigger] d[e]) && rs[e] is None
    &&& forall|e: int|
        0 <= e < g.edges.len() && #[trigger] finished(seen, stack, e) ==> finished_ok(
            g,
            c,
            e,
            d,
            rs,
            seen,
            stack,
        )
    &&& is_dep_chain(g, stack)
    &&& forall|i: int| 0 <= i < stack.len() ==> seen[#[trigger] stack[i] as int]
}

/// How many edges are unchecked.
pub open spec fn falses(v: Seq<bool>) -> nat
    decreases v.len(),
{
    if v.len() == 0 {
        0
    } else {
        falses(v.drop_last()) + if v.last() {
            0nat
        } else {
            1nat
        }
    }
}

pub proof fn lemma_falses(a: Seq<bool>, b: Seq<bool>)
    requires
        a.len() == b.len(),
        forall|i: int| 0 <= i < a.len() && #[trigger] a[i] ==> b[i],
    ensures
        falses(b) <= falses(a),
        (exists|k: int| 0 <= k < a.len() && !a[k] && b[k]) ==> falses(b) < falses(a),
    decreases a.len(),
{
    if a.len() > 0 {
        let a1 = a.drop_last();
        let b1 = b.drop_last();
        assert forall|i: int| 0 <= i < a1.len() && #[trigger] a1[i] implies b1[i] by {
            assert(a[i]);
        }
        lemma_falses(a1, b1);
        if exists|k: int| 0 <= k < a.len() && !a[k] && b[k] {
            let k = choose|k: int| 0 <= k < a.len() && !a[k] && b[k];
            if k < a1.len() {
                assert(!a1[k] && b1[k]);
            }
        }
    }
}

pub proof fn lemma_dirty_input_agree(g: GraphView, ins: Seq<usize>, d1: Seq<bool>, d2: Seq<bool>, k: int)
    requires
        0 <= k,
        forall|j: int|
            k <= j < ins.len() && (#[trigger] g.nodes[ins[j] as int]).producer is Some ==> d1[g.nodes[ins[j] as int].producer->0 as int]
                == d2[g.nodes[ins[j] as int].producer->0 as int],
    ensures
        dirty_input_from(g, ins, d1, k) == dirty_input_from(g, ins, d2, k),
    decreases ins.len() - k,
{
    if k < ins.len() {
        lemma_dirty_input_agree(g, ins, d1, d2, k + 1);
        assert(g.nodes[ins[k] as int] == g.nodes[ins[k] as int]);
    }
}

/// An edge's flag and reason read only the flags of its inputs' producers.
pub proof fn lemma_dirty_agree(g: GraphView, c: PlanCtx, e: int, d1: Seq<bool>, d2: Seq<bool>)
    requires
        0 <= e < g.edges.len(),
        g.edges.len() <= usize::MAX,
        forall|n: usize|
            input_of(g, e as usize, n) && #[trigger] g.nodes[n as int].producer is Some ==> d1[g.nodes[n as int].producer->0 as int]
                == d2[g.nodes[n as int].producer->0 as int],
    ensures
        is_dirty(g, c, e, d1) == is_dirty(g, c, e, d2),
        reason_value(g, c, e, d1) == reason_value(g, c, e, d2),
{
    let ins = g.edges[e].ins;
    assert forall|j: int|
        0 <= j < ins.len() && (#[trigger] g.nodes[ins[j] as int]).producer is Some implies d1[g.nodes[ins[j] as int].producer->0 as int]
        == d2[g.nodes[ins[j] as int].producer->0 as int] by {
        assert(ins.contains(ins[j]));
        assert(input_of(g, e as usize, ins[j]));
    }
    lemma_dirty_input_agree(g, ins, d1, d2, 0);
}

/// Starting to check an unchecked wanted edge.
pub proof fn lemma_dirty_start(
    g: GraphView,
    c: PlanCtx,
    seen: Seq<bool>,
    d: Seq<bool>,
    rs: Seq<Option<Seq<char>>>,
    stack: Seq<usize>,
    eid: usize,
)
    requires
        graph_wf(g),
        dirty_inv(g, c, seen, d, rs, stack),
        eid < g.edges.len(),
        !seen[eid as int],
        is_wanted(g, c.targets, eid as int),
        stack.len() > 0 ==> dep(g, stack.last(), eid),
    ensures
        dirty_inv(g, c, seen.update(eid as int, true), d, rs, stack.push(eid)),
        !stack.contains(eid),
{
    let s2 = stack.push(eid);
    let seen2 = seen.update(eid as int, true);
    assert(!stack.contains(eid)) by {
        if stack.contains(eid) {
            let i = choose|i: int| 0 <= i < stack.len() && stack[i] == eid;
            assert(seen[stack[i] as int]);
        }
    }
    assert forall|e: int| 0 <= e < g.edges.len() implies finished(seen2, s2, e) == (finished(seen, stack, e)
        && e != eid) by {
        vstd::seq_lib::lemma_seq_contains_after_push(stack, eid, e as usize);
    }
    assert forall|e: int|
        0 <= e < g.edges.len() && #[trigger] finished(seen2, s2, e) implies finished_ok(
        g,
        c,
        e,
        d,
        rs,
        seen2,
        s2,
    ) by {
        assert(finished(seen, stack, e));
        assert forall|n: usize|
            input_of(g, e as usize, n) && #[trigger] g.nodes[n as int].producer is Some implies finished(
            seen2,
            s2,
            g.nodes[n as int].producer->0 as int,
        ) by {
            let p = g.nodes[n as int].producer->0 as int;
            assert(finished(seen, stack, p));
            assert(p < g.edges.len()) by {
                assert(g.edges[e].ins.contains(n) || g.edges[e].order_only_ins.contains(n));
                if g.edges[e].ins.contains(n) {
                    let j = choose|j: int| 0 <= j < g.edges[e].ins.len() && g.edges[e].ins[j] == n;
                    assert(g.edges[e].ins[j] < g.nodes.len());
                } else {
                    let j = choose|j: int|
                        0 <= j < g.edges[e].order_only_ins.len() && g.edges[e].order_only_ins[j] == n;
                    assert(g.edges[e].order_only_ins[j] < g.nodes.len());
                }
            }
        }
    }
    assert(is_dep_chain(g, s2)) by {
        assert forall|i: int| 0 <= i < s2.len() - 1 implies #[trigger] dep(g, s2[i], s2[i + 1]) by {
            if i < stack.len() - 1 {
                assert(dep(g, stack[i], stack[i + 1]));
            }
        }
    }
    assert forall|i: int| 0 <= i < s2.len() implies seen2[#[trigger] s2[i] as int] by {
        if i < stack.len() {
            assert(seen[stack[i] as int]);
        }
    }
}

/// A producer that the edge on top of the stack needs is not on the stack:
/// else the edges would need each other in a cycle.
pub proof fn lemma_not_on_stack(
    g: GraphView,
    c: PlanCtx,
    seen: Seq<bool>,
    d: Seq<bool>,
    rs: Seq<Option<Seq<char>>>,
    stack: Seq<usize>,
    p: usize,
)
    requires
        graph_wf(g),
        dirty_inv(g, c, seen, d, rs, stack),
        !has_reachable_cycle(g, c.targets),
        stack.len() > 0,
        dep(g, stack.last(), p),
        p < g.edges.len(),
    ensures
        !stack.contains(p),
{
    if stack.contains(p) {
        let j = choose|j: int| 0 <= j < stack.len() && stack[j] == p;
        let ch = stack.subrange(j, stack.len() as int).push(p);
        assert(is_dep_chain(g, ch)) by {
            assert forall|i: int| 0 <= i < ch.len() - 1 implies #[trigger] dep(g, ch[i], ch[i + 1]) by {
                if i < ch.len() - 2 {
                    assert(ch[i] == stack[j + i]);
                    assert(ch[i + 1] == stack[j + i + 1]);
                    assert(dep(g, stack[j + i], stack[j + i + 1]));
                } else {
                    assert(ch[i] == stack.last());
                }
            }
        }
        assert(seen[stack[j] as int]);
        lemma_dep_cycle(g, c.targets, ch);
    }
}

/// Finishing the edge on top of the stack.
pub proof fn lemma_dirty_finish(
    g: GraphView,
    c: PlanCtx,
    seen: Seq<bool>,
    d: Seq<bool>,
    rs: Seq<Option<Seq<char>>>,
    stack: Seq<usize>,
    eid: usize,
)
    requires
        graph_wf(g),
        dirty_inv(g, c, seen, d, rs, stack.push(eid)),
        !stack.contains(eid),
        eid < g.edges.len(),
        seen[eid as int],
        producers_finished(g, seen, stack.push(eid), eid as int),
        !source_missing(g, c.st, eid as int),
    ensures
        dirty_inv(
            g,
            c,
            seen,
            d.update(eid as int, is_dirty(g, c, eid as int, d)),
            rs.update(eid as int, reason_value(g, c, eid as int, d)),
            stack,
        ),
{
    let s2 = stack.push(eid);
    let d2 = d.update(eid as int, is_dirty(g, c, eid as int, d));
    let rs2 = rs.update(eid as int, reason_value(g, c, eid as int, d));
    assert forall|e: int| 0 <= e < g.edges.len() implies finished(seen, stack, e) == (finished(seen, s2, e)
        || e == eid) by {
        vstd::seq_lib::lemma_seq_contains_after_push(stack, eid, e as usize);
    }
    assert forall|e: int|
        0 <= e < g.edges.len() && #[trigger] finished(seen, stack, e) implies finished_ok(
        g,
        c,
        e,
        d2,
        rs2,
        seen,
        stack,
    ) by {
        assert forall|n: usize|
            input_of(g, e as usize, n) && #[trigger] g.nodes[n as int].producer is Some implies d[g.nodes[n as int].producer->0 as int]
            == d2[g.nodes[n as int].producer->0 as int] && finished(seen, stack, g.nodes[n as int].producer->0 as int) by {
            let p = g.nodes[n as int].producer->0 as int;
            if e == eid {
                assert(finished(seen, s2, p));
            } else {
                assert(finished(seen, s2, e));
                assert(finished(seen, s2, p));
            }
            assert(p != eid) by {
                assert(s2.contains(eid)) by {
                    assert(s2[s2.len() - 1] == eid);
                }
            }
        }
        lemma_dirty_agree(g, c, e, d, d2);
        if e != eid {
            assert(finished(seen, s2, e));
        }
    }
    assert(is_dep_chain(g, stack)) by {
        assert forall|i: int| 0 <= i < stack.len() - 1 implies #[trigger] dep(g, stack[i], stack[i + 1]) by {
            assert(dep(g, s2[i], s2[i + 1]));
        }
        assert forall|i: int| 0 <= i < stack.len() implies #[trigger] stack[i] < g.edges.len() by {
            assert(s2[i] == stack[i]);
        }
    }
    assert forall|i: int| 0 <= i < stack.len() implies seen[#[trigger] stack[i] as int] by {
        assert(s2[i] == stack[i]);
    }
    assert forall|e: int|
        0 <= e < g.edges.len() && !finished(seen, stack, e) implies !(#[trigger] d2[e]) && rs2[e] is None by {
        vstd::seq_lib::lemma_seq_contains_after_push(stack, eid, e as usize);
        assert(e != eid);
        assert(!finished(seen, s2, e));
        assert(dirty_inv(g, c, seen, d, rs, s2));
        assert(0 <= e < g.edges.len() && !finished(seen, s2, e));
        assert(!d[e]);
        assert(rs[e] is None);
        assert(d2[e] == d[e] && rs2[e] == rs[e]);
    }
}


// ---------------------------------------------------------------------------
// The order in which sources are checked
/// Where the search for a missing source ends: every edge reached checked,
/// with the marks it leaves, or a missing source `n` that edge `e` reads
/// (as an order-only input when `order_only`).
pub enum SourceCheck {
    Checked(Seq<bool>),
    Missing(usize, usize, bool),
}

/// The inputs of `e`, or its order-only inputs.
pub open spec fn inputs_of(g: GraphView, e: usize, order_only: bool) -> Seq<usize> {
    if order_only {
        g.edges[e as int].order_only_ins
    } else {
        g.edges[e as int].ins
    }
}

/// The check from edge `e` with marks `seen`, at most `fuel` edges deep: an
/// unmarked edge is marked, then its inputs and then its order-only inputs
/// are checked in order, the producer of each first.
pub open spec fn source_check_from(g: GraphView, st: StatView, e: usize, seen: Seq<bool>, fuel: nat) -> SourceCheck
    decreases fuel, 0int, 0int, 0int,
{
    if fuel == 0 || seen[e as int] {
        SourceCheck::Checked(seen)
    } else {
        source_check_list(g, st, e, false, 0, seen.update(e as int, true), (fuel - 1) as nat)
    }
}

/// The check of `inputs_of(g, e, order_only)[k..]`, then of the order-only
/// inputs when these were the inputs.
pub open spec fn source_check_list(
    g: GraphView,
    st: StatView,
    e: usize,
    order_only: bool,
    k: int,
    seen: Seq<bool>,
    fuel: nat,
) -> SourceCheck
    decreases fuel, 1int, if order_only { 0int } else { 1int }, inputs_of(g, e, order_only).len() - k,
{
    let ids = inputs_of(g, e, order_only);
    if k < 0 || k >= ids.len() {
        if order_only {
            SourceCheck::Checked(seen)
        } else {
            source_check_list(g, st, e, true, 0, seen, fuel)
        }
    } else {
        match g.nodes[ids[k] as int].producer {
            Some(p) => match source_check_from(g, st, p, seen, fuel) {
                SourceCheck::Missing(n, m, o) => SourceCheck::Missing(n, m, o),
                SourceCheck::Checked(s2) => source_check_list(g, st, e, order_only, k + 1, s2, fuel),
            },
            None => if st_missing(st, path_of(g, ids[k])) {
                SourceCheck::Missing(ids[k], e, order_only)
            } else {
                source_check_list(g, st, e, order_only, k + 1, seen, fuel)
            },
        }
    }
}

/// The checks from the wanted edges `e..`, in order of their numbers.
pub open spec fn source_check_wanted(g: GraphView, c: PlanCtx, e: int, seen: Seq<bool>, fuel: nat) -> SourceCheck
    decreases g.edges.len() - e,
{
    if e < 0 || e >= g.edges.len() {
        SourceCheck::Checked(seen)
    } else if is_wanted(g, c.targets, e) {
        match source_check_from(g, c.st, e as usize, seen, fuel) {
            SourceCheck::Missing(n, m, o) => SourceCheck::Missing(n, m, o),
            SourceCheck::Checked(s2) => source_check_wanted(g, c, e + 1, s2, fuel),
        }
    } else {
        source_check_wanted(g, c, e + 1, seen, fuel)
    }
}

/// The missing source that planning reports, if any: the node, the edge
/// that reads it, and whether as an order-only input.
pub open spec fn missing_found(g: GraphView, c: PlanCtx) -> Option<(usize, usize, bool)> {
    match source_check_wanted(g, c, 0, Seq::new(g.edges.len(), |i: int| false), (g.edges.len() + 1) as nat) {
        SourceCheck::Missing(n, e, o) => Some((n, e, o)),
        SourceCheck::Checked(_) => None,
    }
}

/// The error for source `n` missing as an input of `e`.
pub open spec fn missing_error_of(g: GraphView, n: usize, e: usize, order_only: bool) -> ErrorView {
    let out = path_of(g, g.edges[e as int].outs[0]);
    build_error(
        if order_only {
            missing_order_only_msg(path_of(g, n), out)
        } else {
            missing_input_msg(path_of(g, n), out)
        },
    )
}

pub proof fn lemma_falses_len(v: Seq<bool>)
    ensures
        falses(v) <= v.len(),
    decreases v.len(),
{
    if v.len() > 0 {
        lemma_falses_len(v.drop_last());
    }
}

fn missing_input_error(path: &str, out: &str, order_only: bool) -> (r: KageError)
    ensures
        r@ == build_error(
            if order_only {
                missing_order_only_msg(path@, out@)
            } else {
                missing_input_msg(path@, out@)
            },
        ),
{
    let mut msg = String::new();
    if order_only {
        push_str(&mut msg, "missing order-only input '");
    } else {
        push_str(&mut msg, "missing input '");
    }
    push_str(&mut msg, path);
    push_str(&mut msg, "' needed by '");
    push_str(&mut msg, out);
    push_str(&mut msg, "'");
    KageError::build(msg)
}

/// The settings match the arguments of planning.
pub open spec fn ctx_matches(
    c: PlanCtx,
    stat: &StatCache,
    log: &BuildLog,
    implicit: Seq<Vec<String>>,
    always_make: bool,
    explain: bool,
) -> bool {
    &&& c.st == stat.entries()
    &&& c.lg == log.hashes()
    &&& c.imp == imp_views(implicit)
    &&& c.always_make == always_make
    &&& c.explain == explain
}

impl Graph {
    /// Checks the inputs of edge `eid` (`order_only` picks which list),
    /// checking their producers first.
    fn check_inputs(
        &self,
        eid: EdgeId,
        order_only: bool,
        always_make: bool,
        log: &BuildLog,
        stat: &StatCache,
        implicit_paths: &Vec<Vec<String>>,
        dirty: &mut Vec<bool>,
        reasons: &mut Vec<Option<String>>,
        seen: &mut Vec<bool>,
        explain: bool,
        Ghost(c): Ghost<PlanCtx>,
        Ghost(stack): Ghost<Seq<usize>>,
        Ghost(bound): Ghost<nat>,
        Ghost(fuel): Ghost<nat>,
    ) -> (r: Result<()>)
        requires
            graph_wf(self@),
            ctx_matches(c, stat, log, implicit_paths@, always_make, explain),
            implicit_paths@.len() == self@.edges.len(),
            stat_covers(self@, c.st, c.imp),
            !has_reachable_cycle(self@, c.targets),
            dirty_inv(self@, c, old(seen)@, old(dirty)@, reason_views(old(reasons)@), stack),
            falses(old(seen)@) < fuel,
            stack.len() > 0,
            stack.last() == eid,
            eid < self@.edges.len(),
            falses(old(seen)@) < bound,
        ensures
            final(seen)@.len() == old(seen)@.len(),
            final(dirty)@.len() == old(dirty)@.len(),
            final(reasons)@.len() == old(reasons)@.len(),
            r is Ok ==> {
                &&& dirty_inv(self@, c, final(seen)@, final(dirty)@, reason_views(final(reasons)@), stack)
                &&& forall|f: int| 0 <= f < old(seen)@.len() && #[trigger] old(seen)@[f] ==> final(seen)@[f]
                &&& forall|f: int|
                    0 <= f < old(seen)@.len() && #[trigger] finished(old(seen)@, stack, f) ==> final(dirty)@[f]
                        == old(dirty)@[f] && final(reasons)@[f] == old(reasons)@[f]
                &&& falses(final(seen)@) < bound
                &&& forall|n: usize|
                    (if order_only {
                        self@.edges[eid as int].order_only_ins.contains(n)
                    } else {
                        self@.edges[eid as int].ins.contains(n)
                    }) ==> (match #[trigger] self@.nodes[n as int].producer {
                        Some(p) => finished(final(seen)@, stack, p as int),
                        None => !st_missing(c.st, path_of(self@, n)),
                    })
            },
            r matches Err(e) ==> is_missing_error(self@, c, e@),
            r is Ok ==> falses(final(seen)@) <= falses(old(seen)@),
            r is Ok ==> source_check_list(self@, c.st, eid, order_only, 0, old(seen)@, fuel) == source_check_list(
                self@,
                c.st,
                eid,
                order_only,
                inputs_of(self@, eid, order_only).len() as int,
                final(seen)@,
                fuel,
            ),
            r matches Err(e) ==> source_check_list(self@, c.st, eid, order_only, 0, old(seen)@, fuel) matches SourceCheck::Missing(
                n,
                m,
                o,
            ) && e@ == missing_error_of(self@, n, m, o),
        decreases bound, 0nat,
    {
        let edge = &self.edges[eid];
        assert(self@.edges[eid as int] == edge@);
        let list = if order_only {
            &edge.order_only_ins
        } else {
            &edge.ins
        };
        let ghost s0 = seen@;
        let ghost d0 = dirty@;
        let ghost r0 = reasons@;
        let mut k: usize = 0;
        while k < list.len()
            invariant
                graph_wf(self@),
                ctx_matches(c, stat, log, implicit_paths@, always_make, explain),
                implicit_paths@.len() == self@.edges.len(),
                stat_covers(self@, c.st, c.imp),
                !has_reachable_cycle(self@, c.targets),
                dirty_inv(self@, c, seen@, dirty@, reason_views(reasons@), stack),
                stack.len() > 0,
                stack.last() == eid,
                eid < self@.edges.len(),
                edge@ == self@.edges[eid as int],
                list@ == if order_only {
                    edge@.order_only_ins
                } else {
                    edge@.ins
                },
                k <= list@.len(),
                s0 == old(seen)@,
                d0 == old(dirty)@,
                r0 == old(reasons)@,
                s0.len() == seen@.len(),
                d0.len() == dirty@.len(),
                r0.len() == reasons@.len(),
                falses(seen@) <= falses(s0),
                falses(s0) < bound,
                falses(s0) < fuel,
                list@ == inputs_of(self@, eid, order_only),
                source_check_list(self@, c.st, eid, order_only, 0, s0, fuel) == source_check_list(
                    self@,
                    c.st,
                    eid,
                    order_only,
                    k as int,
                    seen@,
                    fuel,
                ),
                forall|f: int| 0 <= f < s0.len() && #[trigger] s0[f] ==> seen@[f],
                forall|f: int|
                    0 <= f < s0.len() && #[trigger] finished(s0, stack, f) ==> dirty@[f] == d0[f]
                        && reasons@[f] == r0[f],
                forall|j: int|
                    0 <= j < k ==> (match #[trigger] self@.nodes[list@[j] as int].producer {
                        Some(p) => finished(seen@, stack, p as int),
                        None => !st_missing(c.st, path_of(self@, list@[j])),
                    }),
            decreases list@.len() - k,
        {
            let n = list[k];
            assert(list@.contains(n));
            assert(n < self@.nodes.len()) by {
                if order_only {
                    assert(ids_below(edge@.order_only_ins, self@.nodes.len() as int));
                } else {
                    assert(ids_below(edge@.ins, self@.nodes.len() as int));
                }
            }
            assert(self@.nodes[n as int] == self.nodes@[n as int]@);
            let ghost sb = seen@;
            match self.nodes[n].producer {
                Some(p) => {
                    assert(dep(self@, eid, p)) by {
                        assert(input_of(self@, eid, n));
                    }
                    assert(p < self@.edges.len());
                    proof {
                        lemma_not_on_stack(self@, c, seen@, dirty@, reason_views(reasons@), stack, p);
                        assert(seen@[stack.last() as int]) by {
                            assert(stack[stack.len() - 1] == stack.last());
                        }
                        lemma_input_wanted(self@, c.targets, eid, n);
                    }
                    match self.compute_dirty(
                        p,
                        always_make,
                        log,
                        stat,
                        implicit_paths,
                        dirty,
                        reasons,
                        seen,
                        explain,
                        Ghost(c),
                        Ghost(stack),
                        Ghost(falses(sb)),
                        Ghost(fuel),
                    ) {
                        Ok(()) => {},
                        Err(e) => {
                            return Err(e);
                        },
                    }
                },
                None => {
                    let path = self.nodes[n].path.as_str();
                    assert(stat.entries().contains_key(self@.nodes[n as int].path));
                    if stat_of(stat, path).is_none() {
                        let o = edge.outs[0];
                        assert(self@.nodes[o as int] == self.nodes@[o as int]@);
                        let e = missing_input_error(path, self.nodes[o].path.as_str(), order_only);
                        proof {
                            assert(seen@[stack.last() as int]) by {
                                assert(stack[stack.len() - 1] == stack.last());
                            }
                            assert(is_wanted(self@, c.targets, eid as int));
                            assert(self@.edges[eid as int] == self@.edges[eid as int]);
                            assert(self@.nodes[n as int] == self@.nodes[n as int]);
                        }
                        return Err(e);
                    }
                },
            }
            proof {
                lemma_falses(sb, seen@);
                assert forall|j: int| 0 <= j < k + 1 implies (match #[trigger] self@.nodes[list@[j] as int].producer {
                    Some(p) => finished(seen@, stack, p as int),
                    None => !st_missing(c.st, path_of(self@, list@[j])),
                }) by {
                    if j < k {
                        match self@.nodes[list@[j] as int].producer {
                            Some(p) => {
                                assert(finished(sb, stack, p as int));
                            },
                            None => {},
                        }
                    }
                }
                assert forall|f: int|
                    0 <= f < s0.len() && #[trigger] finished(s0, stack, f) implies dirty@[f] == d0[f]
                    && reasons@[f] == r0[f] by {
                    assert(finished(sb, stack, f));
                }
            }
            k = k + 1;
        }
        proof {
            assert forall|m: usize|
                (if order_only {
                    self@.edges[eid as int].order_only_ins.contains(m)
                } else {
                    self@.edges[eid as int].ins.contains(m)
                }) implies (match #[trigger] self@.nodes[m as int].producer {
                    Some(p) => finished(seen@, stack, p as int),
                    None => !st_missing(c.st, path_of(self@, m)),
                }) by {
                let j = choose|j: int| 0 <= j < list@.len() && list@[j] == m;
                assert(self@.nodes[list@[j] as int] == self@.nodes[m as int]);
            }
        }
        Ok(())
    }

    /// Decides whether edge `eid` must run, after the edges it needs; an
    /// input that no edge produces and that does not exist is an error.
    fn compute_dirty(
        &self,
        eid: EdgeId,
        always_make: bool,
        log: &BuildLog,
        stat: &StatCache,
        implicit_paths: &Vec<Vec<String>>,
        dirty: &mut Vec<bool>,
        reasons: &mut Vec<Option<String>>,
        seen: &mut Vec<bool>,
        explain: bool,
        Ghost(c): Ghost<PlanCtx>,
        Ghost(stack): Ghost<Seq<usize>>,
        Ghost(bound): Ghost<nat>,
        Ghost(fuel): Ghost<nat>,
    ) -> (r: Result<()>)
        requires
            graph_wf(self@),
            ctx_matches(c, stat, log, implicit_paths@, always_make, explain),
            implicit_paths@.len() == self@.edges.len(),
            stat_covers(self@, c.st, c.imp),
            !has_reachable_cycle(self@, c.targets),
            dirty_inv(self@, c, old(seen)@, old(dirty)@, reason_views(old(reasons)@), stack),
            falses(old(seen)@) < fuel,
            eid < self@.edges.len(),
            is_wanted(self@, c.targets, eid as int),
            old(seen)@[eid as int] ==> !stack.contains(eid),
            stack.len() > 0 ==> dep(self@, stack.last(), eid),
            falses(old(seen)@) <= bound,
        ensures
            final(seen)@.len() == old(seen)@.len(),
            final(dirty)@.len() == old(dirty)@.len(),
            final(reasons)@.len() == old(reasons)@.len(),
            r is Ok ==> {
                &&& dirty_inv(self@, c, final(seen)@, final(dirty)@, reason_views(final(reasons)@), stack)
                &&& finished(final(seen)@, stack, eid as int)
                &&& forall|f: int| 0 <= f < old(seen)@.len() && #[trigger] old(seen)@[f] ==> final(seen)@[f]
                &&& forall|f: int|
                    0 <= f < old(seen)@.len() && #[trigger] finished(old(seen)@, stack, f) ==> final(dirty)@[f]
                        == old(dirty)@[f] && final(reasons)@[f] == old(reasons)@[f]
                &&& falses(final(seen)@) <= falses(old(seen)@)
            },
            r matches Err(e) ==> is_missing_error(self@, c, e@),
            r is Ok ==> source_check_from(self@, c.st, eid, old(seen)@, fuel) == SourceCheck::Checked(final(seen)@),
            r matches Err(e) ==> source_check_from(self@, c.st, eid, old(seen)@, fuel) matches SourceCheck::Missing(
                n,
                m,
                o,
            ) && e@ == missing_error_of(self@, n, m, o),
        decreases bound, 1nat,
    {
        if seen[eid] {
            return Ok(());
        }
        let ghost s0 = seen@;
        let ghost d0 = dirty@;
        let ghost r0 = reasons@;
        proof {
            lemma_dirty_start(self@, c, seen@, dirty@, reason_views(reasons@), stack, eid);
        }
        seen.set(eid, true);
        assert(seen@ =~= s0.update(eid as int, true));
        proof {
            lemma_falses(s0, seen@);
        }
        assert(source_check_from(self@, c.st, eid, s0, fuel) == source_check_list(
            self@,
            c.st,
            eid,
            false,
            0,
            seen@,
            (fuel - 1) as nat,
        ));
        let ghost s2 = stack.push(eid);
        assert(s2.last() == eid);
        match self.check_inputs(
            eid,
            false,
            always_make,
            log,
            stat,
            implicit_paths,
            dirty,
            reasons,
            seen,
            explain,
            Ghost(c),
            Ghost(s2),
            Ghost(bound),
            Ghost((fuel - 1) as nat),
        ) {
            Ok(()) => {},
            Err(e) => {
                return Err(e);
            },
        }
        let ghost s1 = seen@;
        assert(source_check_list(self@, c.st, eid, false, inputs_of(self@, eid, false).len() as int, s1, (fuel - 1) as nat)
            == source_check_list(self@, c.st, eid, true, 0, s1, (fuel - 1) as nat));
        match self.check_inputs(
            eid,
            true,
            always_make,
            log,
            stat,
            implicit_paths,
            dirty,
            reasons,
            seen,
            explain,
            Ghost(c),
            Ghost(s2),
            Ghost(bound),
            Ghost((fuel - 1) as nat),
        ) {
            Ok(()) => {},
            Err(e) => {
                return Err(e);
            },
        }
        assert(source_check_from(self@, c.st, eid, s0, fuel) == SourceCheck::Checked(seen@));
        let edge = &self.edges[eid];
        assert(self@.edges[eid as int] == edge@);
        proof {
            assert forall|n: usize|
                input_of(self@, eid, n) && #[trigger] self@.nodes[n as int].producer is Some implies finished(
                seen@,
                s2,
                self@.nodes[n as int].producer->0 as int,
            ) by {
                let p = self@.nodes[n as int].producer->0;
                if self@.edges[eid as int].ins.contains(n) {
                    assert(finished(s1, s2, p as int));
                }
            }
            assert(!source_missing(self@, c.st, eid as int)) by {
                if source_missing(self@, c.st, eid as int) {
                    let n = choose|n: usize|
                        (self@.edges[eid as int].ins.contains(n) || self@.edges[eid as int].order_only_ins.contains(n))
                            && #[trigger] self@.nodes[n as int].producer is None && st_missing(c.st, path_of(self@, n));
                    assert(self@.nodes[n as int].producer is None);
                }
            }
        }
        let ghost dv = dirty@;
        let ghost rv = reason_views(reasons@);
        let ghost sv = seen@;
        proof {
            assert(s2.contains(eid)) by {
                assert(s2[s2.len() - 1] == eid);
            }
            assert(!finished(seen@, s2, eid as int));
            assert(dirty_inv(self@, c, seen@, dv, rv, s2));
            assert(!dv[eid as int]);
            assert(rv[eid as int] is None);
            assert forall|f: int| 0 <= f < s0.len() && #[trigger] finished(s0, stack, f) implies dv[f] == d0[f]
                && reasons@[f] == r0[f] && f != eid by {
                assert(f != eid);
                vstd::seq_lib::lemma_seq_contains_after_push(stack, eid, f as usize);
                assert(finished(s0.update(eid as int, true), s2, f));
                assert(finished(s1, s2, f));
            }
            assert forall|f: int| 0 <= f < s0.len() && #[trigger] s0[f] implies sv[f] by {
                assert(s0.update(eid as int, true)[f]);
                assert(s1[f]);
            }
            assert(sv[eid as int]) by {
                assert(s0.update(eid as int, true)[eid as int]);
                assert(s1[eid as int]);
            }
            lemma_falses(s0, sv);
            assert(!stack.contains(eid));
        }
        if always_make {
            dirty.set(eid, true);
            if explain {
                let mut r = String::new();
                push_str(&mut r, "forced rebuild (-B)");
                reasons.set(eid, Some(r));
            }
            proof {
                assert(is_dirty(self@, c, eid as int, dv));
                assert(dirty@ =~= dv.update(eid as int, is_dirty(self@, c, eid as int, dv)));
                assert(reason_views(reasons@) =~= rv.update(eid as int, reason_value(self@, c, eid as int, dv)));
                lemma_dirty_finish(self@, c, seen@, dv, rv, stack, eid);
            }
            return Ok(());
        }
        let reason = self.reason_for(edge, eid, log, stat, &implicit_paths[eid], dirty, Ghost(c));
        if let Some(r) = reason {
            dirty.set(eid, true);
            if explain {
                reasons.set(eid, Some(r));
            }
        }
        proof {
            assert(dirty@ =~= dv.update(eid as int, is_dirty(self@, c, eid as int, dv)));
            assert(reason_views(reasons@) =~= rv.update(eid as int, reason_value(self@, c, eid as int, dv)));
            lemma_dirty_finish(self@, c, seen@, dv, rv, stack, eid);
        }
        Ok(())
    }

    /// The reason of `dirty_reason` for an edge whose producers are checked.
    fn reason_for(
        &self,
        edge: &Edge,
        eid: EdgeId,
        log: &BuildLog,
        stat: &StatCache,
        imp: &Vec<String>,
        dirty: &Vec<bool>,
        Ghost(c): Ghost<PlanCtx>,
    ) -> (r: Option<String>)
        requires
            graph_wf(self@),
            eid < self@.edges.len(),
            edge@ == self@.edges[eid as int],
            c.st == stat.entries(),
            c.lg == log.hashes(),
            c.imp.len() == self@.edges.len(),
            c.imp[eid as int] == views(imp@),
            stat_covers(self@, c.st, c.imp),
            dirty@.len() == self@.edges.len(),
        ensures
            opt_text(r) == dirty_reason(self@, eid as int, dirty@, c.st, c.lg, c.imp[eid as int]),
    {
        assert(ids_below(edge@.outs, self@.nodes.len() as int));
        assert(ids_below(edge@.ins, self@.nodes.len() as int));
        if let Some(p) = self.missing_output(&edge.outs, stat) {
            return Some(concat3("output '", p.as_str(), "' is missing"));
        }
        if edge.depformat == DepFormat::Gcc {
            if let Some(df) = &edge.depfile {
                if stat_of(stat, df.as_str()).is_none() {
                    return Some(concat3("depfile '", df.as_str(), "' is missing"));
                }
            }
        }
        if let Some(r) = self.log_reason(&edge.outs, log, edge.command_hash) {
            return Some(r);
        }
        if let Some(p) = self.dirty_input(&edge.ins, dirty) {
            return Some(concat3("input '", p.as_str(), "' is dirty"));
        }
        proof {
            assert forall|k: int| 0 <= k < imp@.len() implies stat.entries().contains_key(#[trigger] imp@[k]@) by {
                assert(views(imp@)[k] == imp@[k]@);
                assert(c.imp[eid as int][k] == imp@[k]@);
            }
        }
        self.mtime_check(edge, stat, imp)
    }

}


/// The producer of an input of a wanted edge is wanted.
pub proof fn lemma_input_wanted(g: GraphView, targets: Seq<usize>, e: usize, n: usize)
    requires
        graph_wf(g),
        is_wanted(g, targets, e as int),
        input_of(g, e, n),
        n < g.nodes.len(),
        g.nodes[n as int].producer is Some,
    ensures
        reachable(g, targets, n),
        is_wanted(g, targets, g.nodes[n as int].producer->0 as int),
{
    let m = choose|m: usize|
        #[trigger] reachable(g, targets, m) && m < g.nodes.len() && g.nodes[m as int].producer == Some(
            e,
        );
    let r = choose|r: Seq<usize>| #[trigger] is_path(g, r) && targets.contains(r[0]) && r.last() == m;
    assert(child(g, m, n));
    lemma_path_push(g, r, n);
    assert(r.push(n)[0] == r[0]);
    assert(reachable(g, targets, n));
}


// ---------------------------------------------------------------------------
// The plan
/// The dirty edges of a build, how many dirty producers each still waits
/// for, those that can start at once, and why each edge is dirty.
#[derive(Debug)]
pub struct Plan {
    pub dirty: Vec<EdgeId>,
    pub wait: Vec<usize>,
    pub ready: Vec<EdgeId>,
    pub reasons: Vec<Option<String>>,
}

pub struct PlanView {
    pub dirty: Seq<usize>,
    pub wait: Seq<usize>,
    pub ready: Seq<usize>,
    pub reasons: Seq<Option<Seq<char>>>,
}

impl View for Plan {
    type V = PlanView;

    open spec fn view(&self) -> PlanView {
        PlanView {
            dirty: self.dirty@,
            wait: self.wait@,
            ready: self.ready@,
            reasons: reason_views(self.reasons@),
        }
    }
}

/// The numbers below `n` whose flag is set, in increasing order.
pub open spec fn indices_where(flags: Seq<bool>, n: int) -> Seq<usize>
    decreases n,
{
    if n <= 0 {
        seq![]
    } else if flags[n - 1] {
        indices_where(flags, n - 1).push((n - 1) as usize)
    } else {
        indices_where(flags, n - 1)
    }
}

/// The flags of the edges that a list names.
pub open spec fn flags_of(list: Seq<usize>, n: nat) -> Seq<bool> {
    Seq::new(n, |e: int| list.contains(e as usize))
}

/// How many of `ids` a dirty edge produces.
pub open spec fn pending_of(g: GraphView, ids: Seq<usize>, d: Seq<bool>) -> nat
    decreases ids.len(),
{
    if ids.len() == 0 {
        0
    } else {
        pending_of(g, ids.drop_last(), d) + match g.nodes[ids.last() as int].producer {
            Some(p) => if d[p as int] {
                1nat
            } else {
                0nat
            },
            None => 0nat,
        }
    }
}

/// How many dirty producers edge `e` waits for: one for each input and
/// order-only input that a dirty edge produces.
pub open spec fn wait_count(g: GraphView, e: int, d: Seq<bool>) -> nat {
    pending_of(g, g.edges[e].ins, d) + pending_of(g, g.edges[e].order_only_ins, d)
}

/// An edge's inputs can be counted in a `usize`.
pub open spec fn inputs_fit(g: GraphView) -> bool {
    forall|e: int|
        0 <= e < g.edges.len() ==> (#[trigger] g.edges[e]).ins.len() + g.edges[e].order_only_ins.len()
            <= usize::MAX
}

/// What `plan` returns: the dirty edges are the wanted ones that the rules
/// of `is_dirty` make dirty, given which edges are dirty; each waits for
/// its dirty producers; the ready ones wait for none; the reasons are
/// those of the wanted edges.
pub open spec fn plan_ok(g: GraphView, c: PlanCtx, p: PlanView) -> bool {
    let n = g.edges.len();
    let d = flags_of(p.dirty, n);
    &&& p.dirty == indices_where(d, n as int)
    &&& forall|e: int| 0 <= e < n ==> (#[trigger] d[e] <==> is_wanted(g, c.targets, e) && is_dirty(g, c, e, d))
    &&& p.wait.len() == n
    &&& forall|e: int| 0 <= e < n ==> #[trigger] p.wait[e] == if d[e] {
        wait_count(g, e, d)
    } else {
        0
    }
    &&& p.ready == indices_where(Seq::new(n, |e: int| d[e] && p.wait[e] == 0), n as int)
    &&& p.reasons.len() == n
    &&& forall|e: int| 0 <= e < n ==> #[trigger] p.reasons[e] == if is_wanted(g, c.targets, e) {
        reason_value(g, c, e, d)
    } else {
        None
    }
}

pub proof fn lemma_indices_where(flags: Seq<bool>, n: int, e: int)
    requires
        0 <= n <= flags.len(),
        n <= usize::MAX + 1,
        0 <= e <= usize::MAX,
    ensures
        indices_where(flags, n).contains(e as usize) <==> 0 <= e < n && flags[e],
        forall|j: int| 0 <= j < indices_where(flags, n).len() ==> #[trigger] indices_where(flags, n)[j] < n,
    decreases n,
{
    if n > 0 {
        lemma_indices_where(flags, n - 1, e);
        let s = indices_where(flags, n - 1);
        if flags[n - 1] {
            vstd::seq_lib::lemma_seq_contains_after_push(s, (n - 1) as usize, e as usize);
            assert forall|j: int| 0 <= j < s.push((n - 1) as usize).len() implies #[trigger] s.push(
                (n - 1) as usize,
            )[j] < n by {
                if j < s.len() {
                    assert(s[j] < n - 1);
                }
            }
        }
    }
}

impl Graph {
    fn pending(&self, ids: &Vec<NodeId>, dirty: &Vec<bool>) -> (w: usize)
        requires
            graph_wf(self@),
            ids_below(ids@, self@.nodes.len() as int),
            dirty@.len() == self@.edges.len(),
        ensures
            w == pending_of(self@, ids@, dirty@),
            w <= ids@.len(),
    {
        let mut w: usize = 0;
        let mut k: usize = 0;
        while k < ids.len()
            invariant
                graph_wf(self@),
                ids_below(ids@, self@.nodes.len() as int),
                dirty@.len() == self@.edges.len(),
                k <= ids@.len(),
                w <= k,
                w == pending_of(self@, ids@.take(k as int), dirty@),
            decreases ids@.len() - k,
        {
            let i = ids[k];
            assert(ids@.take(k + 1).drop_last() =~= ids@.take(k as int));
            assert(self@.nodes[i as int] == self.nodes@[i as int]@);
            if let Some(p) = self.nodes[i].producer {
                if dirty[p] {
                    w = w + 1;
                }
            }
            k = k + 1;
        }
        assert(ids@.take(ids@.len() as int) =~= ids@);
        w
    }

    /// Plans a build of `targets`: finds the edges they need, decides which
    /// must run, and counts what each waits for.  `implicit` holds each
    /// edge's implicit inputs; `stat` has a result for every path read.
    pub fn plan(
        &self,
        targets: &[NodeId],
        implicit: &Vec<Vec<String>>,
        log: &BuildLog,
        stat: &StatCache,
        always_make: bool,
        explain: bool,
    ) -> (r: Result<Plan>)
        requires
            graph_wf(self@),
            ids_below(targets@, self@.nodes.len() as int),
            implicit@.len() == self@.edges.len(),
            stat_covers(self@, stat.entries(), imp_views(implicit@)),
            inputs_fit(self@),
        ensures
            ({
                let c = PlanCtx {
                    targets: targets@,
                    st: stat.entries(),
                    lg: log.hashes(),
                    imp: imp_views(implicit@),
                    always_make,
                    explain,
                };
                &&& r is Ok <==> !has_reachable_cycle(self@, targets@) && !any_source_missing(self@, c)
                &&& has_reachable_cycle(self@, targets@) ==> (r matches Err(e) && is_cycle_error(
                    self@,
                    targets@,
                    e@,
                ) && (cycle_found(self@, targets@) matches Some(n) && e@ == build_error(
                    cycle_msg(path_of(self@, n)),
                )))
                &&& !has_reachable_cycle(self@, targets@) ==> (r matches Err(e) ==> is_missing_error(
                    self@,
                    c,
                    e@,
                ) && (missing_found(self@, c) matches Some((n, m, o)) && e@ == missing_error_of(self@, n, m, o)))
                &&& r matches Ok(p) ==> plan_ok(self@, c, p@)
            }),
    {
        let ghost c = PlanCtx {
            targets: targets@,
            st: stat.entries(),
            lg: log.hashes(),
            imp: imp_views(implicit@),
            always_make,
            explain,
        };
        let wanted = match self.wanted_edges(targets) {
            Ok(w) => w,
            Err(e) => {
                return Err(e);
            },
        };
        let n_edges = self.edges.len();
        let (dirty, reasons) = match self.check_wanted(
            &wanted,
            always_make,
            log,
            stat,
            implicit,
            explain,
            Ghost(c),
        ) {
            Ok(t) => t,
            Err(e) => {
                proof {
                    lemma_missing_error_is_missing(self@, c, e@);
                }
                return Err(e);
            },
        };
        let ghost d = dirty@;
        let (wait, dirty_list, ready) = self.wait_counts(&dirty);
        let plan = Plan { dirty: dirty_list, wait, ready, reasons };
        proof {
            lemma_plan_ok(self@, c, d, plan@);
        }
        Ok(plan)
    }
}

pub proof fn lemma_indices_prefix(a: Seq<bool>, b: Seq<bool>, n: int)
    requires
        0 <= n,
        n <= a.len(),
        n <= b.len(),
        forall|j: int| 0 <= j < n ==> a[j] == b[j],
    ensures
        indices_where(a, n) == indices_where(b, n),
    decreases n,
{
    if n > 0 {
        lemma_indices_prefix(a, b, n - 1);
    }
}


impl Graph {
    /// Decides every wanted edge, in order of number.
    fn check_wanted(
        &self,
        wanted: &Vec<bool>,
        always_make: bool,
        log: &BuildLog,
        stat: &StatCache,
        implicit: &Vec<Vec<String>>,
        explain: bool,
        Ghost(c): Ghost<PlanCtx>,
    ) -> (r: Result<(Vec<bool>, Vec<Option<String>>)>)
        requires
            graph_wf(self@),
            ctx_matches(c, stat, log, implicit@, always_make, explain),
            implicit@.len() == self@.edges.len(),
            stat_covers(self@, c.st, c.imp),
            !has_reachable_cycle(self@, c.targets),
            wanted@.len() == self@.edges.len(),
            forall|e: int| 0 <= e < wanted@.len() ==> (#[trigger] wanted@[e] <==> is_wanted(self@, c.targets, e)),
        ensures
            r matches Ok((d, rs)) ==> {
                &&& d@.len() == self@.edges.len()
                &&& rs@.len() == self@.edges.len()
                &&& !any_source_missing(self@, c)
                &&& checked_ok(self@, c, d@, reason_views(rs@))
            },
            r matches Err(e) ==> is_missing_error(self@, c, e@),
            r matches Err(e) ==> missing_found(self@, c) matches Some((n, m, o)) && e@ == missing_error_of(
                self@,
                n,
                m,
                o,
            ),
    {
        let n_edges = self.edges.len();
        let mut dirty: Vec<bool> = vec![false; n_edges];
        let mut seen: Vec<bool> = vec![false; n_edges];
        let ghost fuel = (self@.edges.len() + 1) as nat;
        assert(seen@ =~= Seq::new(self@.edges.len(), |i: int| false));
        let mut reasons: Vec<Option<String>> = Vec::new();
        let mut k: usize = 0;
        while k < n_edges
            invariant
                k <= n_edges,
                n_edges == self@.edges.len(),
                reasons@.len() == k,
                forall|j: int| 0 <= j < k ==> (#[trigger] reasons@[j]) is None,
            decreases n_edges - k,
        {
            reasons.push(None);
            k = k + 1;
        }
        assert(dirty_inv(self@, c, seen@, dirty@, reason_views(reasons@), seq![])) by {
            assert(is_dep_chain(self@, seq![]));
        }
        let mut eid: usize = 0;
        while eid < n_edges
            invariant
                graph_wf(self@),
                ctx_matches(c, stat, log, implicit@, always_make, explain),
                implicit@.len() == self@.edges.len(),
                stat_covers(self@, c.st, c.imp),
                !has_reachable_cycle(self@, c.targets),
                n_edges == self@.edges.len(),
                wanted@.len() == n_edges,
                forall|e: int| 0 <= e < wanted@.len() ==> (#[trigger] wanted@[e] <==> is_wanted(self@, c.targets, e)),
                eid <= n_edges,
                dirty_inv(self@, c, seen@, dirty@, reason_views(reasons@), seq![]),
                forall|e: int| 0 <= e < eid && #[trigger] wanted@[e] ==> seen@[e],
                fuel == self@.edges.len() + 1,
                seen@.len() == n_edges,
                source_check_wanted(self@, c, 0, Seq::new(self@.edges.len(), |i: int| false), fuel)
                    == source_check_wanted(self@, c, eid as int, seen@, fuel),
            decreases n_edges - eid,
        {
            assert(wanted@[eid as int] == is_wanted(self@, c.targets, eid as int));
            if wanted[eid] {
                let ghost sb = seen@;
                proof {
                    lemma_falses_len(seen@);
                }
                match self.compute_dirty(
                    eid,
                    always_make,
                    log,
                    stat,
                    implicit,
                    &mut dirty,
                    &mut reasons,
                    &mut seen,
                    explain,
                    Ghost(c),
                    Ghost(Seq::empty()),
                    Ghost(falses(sb)),
                    Ghost(fuel),
                ) {
                    Ok(()) => {},
                    Err(e) => {
                        assert(source_check_wanted(self@, c, eid as int, sb, fuel) == source_check_from(
                            self@,
                            c.st,
                            eid,
                            sb,
                            fuel,
                        ));
                        return Err(e);
                    },
                }
                assert(source_check_wanted(self@, c, eid as int, sb, fuel) == source_check_wanted(
                    self@,
                    c,
                    eid + 1,
                    seen@,
                    fuel,
                ));
                assert forall|e: int| 0 <= e < eid + 1 && #[trigger] wanted@[e] implies seen@[e] by {
                    if e < eid {
                        assert(sb[e]);
                    }
                }
            } else {
                assert(source_check_wanted(self@, c, eid as int, seen@, fuel) == source_check_wanted(
                    self@,
                    c,
                    eid + 1,
                    seen@,
                    fuel,
                ));
            }
            eid = eid + 1;
        }
        proof {
            lemma_checked_all(self@, c, seen@, dirty@, reason_views(reasons@), wanted@);
        }
        Ok((dirty, reasons))
    }
}


/// Each wanted edge follows the rules of `is_dirty` and `reason_value`;
/// the others are clean.
#[verifier::opaque]
pub open spec fn checked_ok(g: GraphView, c: PlanCtx, d: Seq<bool>, rs: Seq<Option<Seq<char>>>) -> bool {
    &&& d.len() == g.edges.len()
    &&& rs.len() == g.edges.len()
    &&& forall|e: int|
        0 <= e < g.edges.len() ==> #[trigger] checked_edge(g, c, d, rs, e)
}

pub open spec fn checked_edge(g: GraphView, c: PlanCtx, d: Seq<bool>, rs: Seq<Option<Seq<char>>>, e: int) -> bool {
    if is_wanted(g, c.targets, e) {
        &&& d[e] == is_dirty(g, c, e, d)
        &&& rs[e] == reason_value(g, c, e, d)
    } else {
        !d[e] && rs[e] is None
    }
}

/// Once every wanted edge is checked, each wanted edge follows the rules,
/// the others are clean, and no source is missing.
pub proof fn lemma_checked_all(
    g: GraphView,
    c: PlanCtx,
    seen: Seq<bool>,
    d: Seq<bool>,
    rs: Seq<Option<Seq<char>>>,
    wanted: Seq<bool>,
)
    requires
        dirty_inv(g, c, seen, d, rs, seq![]),
        wanted.len() == g.edges.len(),
        forall|e: int| 0 <= e < wanted.len() ==> (#[trigger] wanted[e] <==> is_wanted(g, c.targets, e)),
        forall|e: int| 0 <= e < wanted.len() && #[trigger] wanted[e] ==> seen[e],
    ensures
        !any_source_missing(g, c),
        checked_ok(g, c, d, rs),
{
    reveal(checked_ok);
    assert forall|e: int| 0 <= e < g.edges.len() implies #[trigger] checked_edge(g, c, d, rs, e) by {
        if is_wanted(g, c.targets, e) {
            assert(wanted[e]);
            assert(finished(seen, seq![], e));
        } else {
            assert(!wanted[e]);
            if seen[e] {
                assert(is_wanted(g, c.targets, e));
            }
            assert(!finished(seen, seq![], e));
            assert(!d[e]);
        }
    }
    assert(!any_source_missing(g, c)) by {
        if any_source_missing(g, c) {
            let e = choose|e: int|
                0 <= e < g.edges.len() && is_wanted(g, c.targets, e) && #[trigger] source_missing(g, c.st, e);
            assert(wanted[e]);
            assert(finished(seen, seq![], e));
        }
    }
}


impl Graph {
    /// For each dirty edge, how many dirty producers it waits for; the
    /// dirty edges; those that wait for none.
    fn wait_counts(&self, dirty: &Vec<bool>) -> (r: (Vec<usize>, Vec<EdgeId>, Vec<EdgeId>))
        requires
            graph_wf(self@),
            inputs_fit(self@),
            dirty@.len() == self@.edges.len(),
        ensures
            ({
                let (wait, dl, ready) = r;
                let n = self@.edges.len();
                &&& wait@.len() == n
                &&& forall|e: int| 0 <= e < n ==> #[trigger] wait@[e] == if dirty@[e] {
                    wait_count(self@, e, dirty@)
                } else {
                    0
                }
                &&& dl@ == indices_where(dirty@, n as int)
                &&& ready@ == indices_where(Seq::new(n, |e: int| dirty@[e] && wait@[e] == 0), n as int)
            }),
    {
        let ghost d = dirty@;
        let n_edges = self.edges.len();
        let mut wait: Vec<usize> = vec![0usize; n_edges];
        let mut dirty_list: Vec<EdgeId> = Vec::new();
        let mut ready: Vec<EdgeId> = Vec::new();
        let mut eid: usize = 0;
        while eid < n_edges
            invariant
                graph_wf(self@),
                inputs_fit(self@),
                n_edges == self@.edges.len(),
                dirty@ == d,
                d.len() == n_edges,
                eid <= n_edges,
                wait@.len() == n_edges,
                forall|e: int| 0 <= e < eid ==> #[trigger] wait@[e] == if d[e] {
                    wait_count(self@, e, d)
                } else {
                    0
                },
                forall|e: int| eid <= e < n_edges ==> #[trigger] wait@[e] == 0,
                dirty_list@ == indices_where(d, eid as int),
                ready@ == indices_where(Seq::new(n_edges as nat, |e: int| d[e] && wait@[e] == 0), eid as int),
            decreases n_edges - eid,
        {
            let ghost wb = wait@;
            if dirty[eid] {
                let edge = &self.edges[eid];
                assert(self@.edges[eid as int] == edge@);
                let a = self.pending(&edge.ins, &dirty);
                let b = self.pending(&edge.order_only_ins, &dirty);
                wait.set(eid, a + b);
                dirty_list.push(eid);
                if a + b == 0 {
                    ready.push(eid);
                }
            }
            proof {
                let fa = Seq::new(n_edges as nat, |e: int| d[e] && wb[e] == 0);
                let fb = Seq::new(n_edges as nat, |e: int| d[e] && wait@[e] == 0);
                assert forall|j: int| 0 <= j < eid + 1 implies fa[j] == fb[j] || j == eid by {}
                lemma_indices_prefix(fa, fb, eid as int);
            }
            eid = eid + 1;
        }
        (wait, dirty_list, ready)
    }
}

/// An error for a missing source shows that a source is missing.
pub proof fn lemma_missing_error_is_missing(g: GraphView, c: PlanCtx, err: ErrorView)
    requires
        is_missing_error(g, c, err),
    ensures
        any_source_missing(g, c),
{
    let (e, n) = choose|e: int, n: usize|
        #![trigger g.edges[e], g.nodes[n as int]]
        0 <= e < g.edges.len() && is_wanted(g, c.targets, e) && g.nodes[n as int].producer is None
            && st_missing(c.st, path_of(g, n)) && {
            let out = path_of(g, g.edges[e].outs[0]);
            ||| g.edges[e].ins.contains(n) && err == build_error(missing_input_msg(path_of(g, n), out))
            ||| g.edges[e].order_only_ins.contains(n) && err == build_error(
                missing_order_only_msg(path_of(g, n), out),
            )
        };
    assert(source_missing(g, c.st, e));
}

/// The plan assembled from the checked flags meets `plan_ok`.
pub proof fn lemma_plan_ok(g: GraphView, c: PlanCtx, d: Seq<bool>, p: PlanView)
    requires
        g.edges.len() <= usize::MAX,
        d.len() == g.edges.len(),
        p.reasons.len() == g.edges.len(),
        checked_ok(g, c, d, p.reasons),
        p.wait.len() == g.edges.len(),
        forall|e: int| 0 <= e < g.edges.len() ==> #[trigger] p.wait[e] == if d[e] {
            wait_count(g, e, d)
        } else {
            0
        },
        p.dirty == indices_where(d, g.edges.len() as int),
        p.ready == indices_where(Seq::new(g.edges.len(), |e: int| d[e] && p.wait[e] == 0), g.edges.len() as int),
    ensures
        plan_ok(g, c, p),
{
    reveal(checked_ok);
    let n = g.edges.len();
    let fl = flags_of(p.dirty, n);
    assert forall|e: int| 0 <= e < n implies #[trigger] fl[e] == d[e] by {
        lemma_indices_where(d, n as int, e);
    }
    assert(fl =~= d);
    assert forall|e: int| 0 <= e < n implies (#[trigger] fl[e] <==> is_wanted(g, c.targets, e) && is_dirty(g, c, e, fl)) by {
        assert(checked_edge(g, c, d, p.reasons, e));
    }
    assert(Seq::new(n, |e: int| d[e] && p.wait[e] == 0) =~= Seq::new(n, |e: int| fl[e] && p.wait[e] == 0));
    assert(p.dirty == indices_where(fl, n as int));
    assert(forall|e: int| 0 <= e < n ==> #[trigger] p.wait[e] == if fl[e] {
        wait_count(g, e, fl)
    } else {
        0
    });
    assert(p.ready == indices_where(Seq::new(n, |e: int| fl[e] && p.wait[e] == 0), n as int));
    assert forall|e: int| 0 <= e < n implies #[trigger] p.reasons[e] == if is_wanted(g, c.targets, e) {
        reason_value(g, c, e, fl)
    } else {
        None
    } by {
        assert(checked_edge(g, c, d, p.reasons, e));
    }
}


impl Graph {
    /// Whether every edge's inputs and order-only inputs can be counted in
    /// a `usize`: what `plan` needs of the graph.
    pub fn inputs_countable(&self) -> (r: bool)
        ensures
            r == inputs_fit(self@),
    {
        let mut e: usize = 0;
        while e < self.edges.len()
            invariant
                e <= self.edges@.len(),
                forall|x: int|
                    0 <= x < e ==> (#[trigger] self@.edges[x]).ins.len() + self@.edges[x].order_only_ins.len()
                        <= usize::MAX,
            decreases self.edges@.len() - e,
        {
            let edge = &self.edges[e];
            assert(self@.edges[e as int] == edge@);
            if edge.ins.len().checked_add(edge.order_only_ins.len()).is_none() {
                assert(!inputs_fit(self@)) by {
                    assert(self@.edges[e as int].ins.len() + self@.edges[e as int].order_only_ins.len() > usize::MAX);
                }
                return false;
            }
            e = e + 1;
        }
        true
    }
}

// ---------------------------------------------------------------------------
// What dirty checking reads
proof fn lemma_missing_output_same(g: GraphView, outs: Seq<usize>, st1: StatView, st2: StatView, k: int)
    requires
        forall|j: int| 0 <= j < outs.len() ==> st1[path_of(g, #[trigger] outs[j])] == st2[path_of(g, outs[j])],
    ensures
        missing_output_from(g, outs, st1, k) == missing_output_from(g, outs, st2, k),
    decreases outs.len() - k,
{
    if 0 <= k < outs.len() {
        lemma_missing_output_same(g, outs, st1, st2, k + 1);
    }
}

proof fn lemma_older_output_same(g: GraphView, outs: Seq<usize>, st1: StatView, st2: StatView, tin: i128, k: int)
    requires
        forall|j: int| 0 <= j < outs.len() ==> st1[path_of(g, #[trigger] outs[j])] == st2[path_of(g, outs[j])],
    ensures
        older_output_from(g, outs, st1, tin, k) == older_output_from(g, outs, st2, tin, k),
    decreases outs.len() - k,
{
    if 0 <= k < outs.len() {
        lemma_older_output_same(g, outs, st1, st2, tin, k + 1);
    }
}

proof fn lemma_newest_ins_same(g: GraphView, ins: Seq<usize>, st1: StatView, st2: StatView, k: int, n: Newest)
    requires
        forall|j: int| 0 <= j < ins.len() ==> st1[path_of(g, #[trigger] ins[j])] == st2[path_of(g, ins[j])],
    ensures
        newest_ins_from(g, ins, st1, k, n) == newest_ins_from(g, ins, st2, k, n),
    decreases ins.len() - k,
{
    if 0 <= k < ins.len() {
        lemma_newest_ins_same(g, ins, st1, st2, k + 1, newest_step(n, st1[path_of(g, ins[k])], path_of(g, ins[k])));
    }
}

proof fn lemma_implicit_same(imp: Seq<Seq<char>>, st1: StatView, st2: StatView, k: int, n: Newest)
    requires
        forall|j: int| 0 <= j < imp.len() ==> st1[#[trigger] imp[j]] == st2[imp[j]],
    ensures
        implicit_from(imp, st1, k, n) == implicit_from(imp, st2, k, n),
    decreases imp.len() - k,
{
    if 0 <= k < imp.len() {
        match st1[imp[k]] {
            None => {},
            Some(m) => {
                lemma_implicit_same(imp, st1, st2, k + 1, newest_step(n, Some(m), imp[k]));
            },
        }
    }
}

/// A path whose stat result dirty checking of edge `e` reads: an output,
/// an input, the depfile or an implicit input of `e`.
pub open spec fn stat_read(g: GraphView, e: int, imp: Seq<Seq<char>>, q: Seq<char>) -> bool {
    ||| exists|j: int| 0 <= j < g.edges[e].outs.len() && path_of(g, #[trigger] g.edges[e].outs[j]) == q
    ||| exists|j: int| 0 <= j < g.edges[e].ins.len() && path_of(g, #[trigger] g.edges[e].ins[j]) == q
    ||| g.edges[e].depfile == Some(q)
    ||| imp.contains(q)
}

/// Order-only inputs only order the jobs: whether and why an edge is dirty
/// depends on the stat results of its outputs, inputs, depfile and implicit
/// inputs alone, so an order-only input that is none of these never makes
/// it dirty, however new it is.
pub proof fn lemma_dirty_reads_only(
    g: GraphView,
    e: int,
    d: Seq<bool>,
    st1: StatView,
    st2: StatView,
    lg: Map<Seq<char>, u64>,
    imp: Seq<Seq<char>>,
)
    requires
        0 <= e < g.edges.len(),
        forall|q: Seq<char>| #[trigger] stat_read(g, e, imp, q) ==> st1[q] == st2[q],
    ensures
        dirty_reason(g, e, d, st1, lg, imp) == dirty_reason(g, e, d, st2, lg, imp),
{
    let edge = g.edges[e];
    assert forall|j: int| 0 <= j < edge.outs.len() implies st1[path_of(g, #[trigger] edge.outs[j])] == st2[path_of(
        g,
        edge.outs[j],
    )] by {
        assert(stat_read(g, e, imp, path_of(g, edge.outs[j])));
    }
    assert forall|j: int| 0 <= j < edge.ins.len() implies st1[path_of(g, #[trigger] edge.ins[j])] == st2[path_of(
        g,
        edge.ins[j],
    )] by {
        assert(stat_read(g, e, imp, path_of(g, edge.ins[j])));
    }
    assert forall|j: int| 0 <= j < imp.len() implies st1[#[trigger] imp[j]] == st2[imp[j]] by {
        assert(imp.contains(imp[j]));
        assert(stat_read(g, e, imp, imp[j]));
    }
    if edge.depfile is Some {
        assert(stat_read(g, e, imp, edge.depfile->0));
    }
    lemma_missing_output_same(g, edge.outs, st1, st2, 0);
    lemma_newest_ins_same(g, edge.ins, st1, st2, 0, no_newest());
    let n0 = newest_ins_from(g, edge.ins, st1, 0, no_newest());
    lemma_implicit_same(imp, st1, st2, 0, n0);
    let sc = implicit_from(imp, st1, 0, n0);
    if sc.newest.time is Some {
        lemma_older_output_same(g, edge.outs, st1, st2, sc.newest.time->0, 0);
    }
}

/// An order-only input of edge `e` that is not also one of its inputs,
/// outputs, depfile or implicit inputs never makes `e` dirty: any change of
/// its stat result, a newer time included, leaves `e`'s reason as it was.
pub proof fn lemma_order_only_never_dirties(
    g: GraphView,
    e: int,
    d: Seq<bool>,
    st: StatView,
    lg: Map<Seq<char>, u64>,
    imp: Seq<Seq<char>>,
    n: usize,
    m: Option<FileMeta>,
)
    requires
        0 <= e < g.edges.len(),
        g.edges[e].order_only_ins.contains(n),
        !stat_read(g, e, imp, path_of(g, n)),
    ensures
        dirty_reason(g, e, d, st.insert(path_of(g, n), m), lg, imp) == dirty_reason(g, e, d, st, lg, imp),
{
    let st2 = st.insert(path_of(g, n), m);
    assert forall|q: Seq<char>| #[trigger] stat_read(g, e, imp, q) implies st2[q] == st[q] by {
        assert(q != path_of(g, n));
    }
    lemma_dirty_reads_only(g, e, d, st2, st, lg, imp);
}

/// A path that only orders jobs never changes a plan: when no wanted edge
/// reads its stat result (as an output, input, depfile or implicit input),
/// a plan made with the old stat results is the plan for the new ones,
/// dirty edges, counts and reasons alike.
pub proof fn lemma_plan_ignores_unread_path(
    g: GraphView,
    c: PlanCtx,
    p: PlanView,
    q: Seq<char>,
    m: Option<FileMeta>,
)
    requires
        plan_ok(g, c, p),
        forall|e: int|
            0 <= e < g.edges.len() && #[trigger] is_wanted(g, c.targets, e) ==> !stat_read(g, e, c.imp[e], q),
    ensures
        plan_ok(
            g,
            PlanCtx {
                targets: c.targets,
                st: c.st.insert(q, m),
                lg: c.lg,
                imp: c.imp,
                always_make: c.always_make,
                explain: c.explain,
            },
            p,
        ),
{
    let c2 = PlanCtx {
        targets: c.targets,
        st: c.st.insert(q, m),
        lg: c.lg,
        imp: c.imp,
        always_make: c.always_make,
        explain: c.explain,
    };
    let n = g.edges.len();
    let d = flags_of(p.dirty, n);
    assert forall|e: int| 0 <= e < n && is_wanted(g, c.targets, e) implies dirty_reason(
        g,
        e,
        d,
        c2.st,
        c2.lg,
        c2.imp[e],
    ) == dirty_reason(g, e, d, c.st, c.lg, c.imp[e]) by {
        assert forall|r: Seq<char>| #[trigger] stat_read(g, e, c.imp[e], r) implies c2.st[r] == c.st[r] by {
            assert(r != q);
        }
        lemma_dirty_reads_only(g, e, d, c2.st, c.st, c.lg, c.imp[e]);
    }
    assert forall|e: int| 0 <= e < n implies (#[trigger] d[e] <==> is_wanted(g, c2.targets, e) && is_dirty(
        g,
        c2,
        e,
        d,
    )) by {
        assert(d[e] <==> is_wanted(g, c.targets, e) && is_dirty(g, c, e, d));
    }
    assert forall|e: int| 0 <= e < n implies #[trigger] p.reasons[e] == if is_wanted(g, c2.targets, e) {
        reason_value(g, c2, e, d)
    } else {
        None
    } by {
        assert(p.reasons[e] == if is_wanted(g, c.targets, e) {
            reason_value(g, c, e, d)
        } else {
            None
        });
    }
}

/// `t` is at least as late as the time of `n`, when `n` has one.
pub open spec fn at_least(n: Newest, t: i128) -> bool {
    n.time matches Some(x) && x >= t
}

proof fn lemma_newest_ins_max(g: GraphView, ins: Seq<usize>, st: StatView, k: int, n: Newest)
    requires
        0 <= k,
    ensures
        forall|t: i128| at_least(n, t) ==> at_least(newest_ins_from(g, ins, st, k, n), t),
        forall|j: int|
            k <= j < ins.len() && #[trigger] st[path_of(g, ins[j])] is Some ==> at_least(
                newest_ins_from(g, ins, st, k, n),
                st[path_of(g, ins[j])]->0.mtime,
            ),
    decreases ins.len() - k,
{
    if k < ins.len() {
        let n1 = newest_step(n, st[path_of(g, ins[k])], path_of(g, ins[k]));
        lemma_newest_ins_max(g, ins, st, k + 1, n1);
        let r = newest_ins_from(g, ins, st, k, n);
        assert(r == newest_ins_from(g, ins, st, k + 1, n1));
        assert forall|t: i128| at_least(n, t) implies at_least(r, t) by {
            lemma_step_keeps(n, st[path_of(g, ins[k])], path_of(g, ins[k]), t);
        }
        assert forall|j: int|
            k <= j < ins.len() && #[trigger] st[path_of(g, ins[j])] is Some implies at_least(
            r,
            st[path_of(g, ins[j])]->0.mtime,
        ) by {
            if j == k {
                lemma_step_takes(n, st[path_of(g, ins[k])], path_of(g, ins[k]));
            }
        }
    }
}

proof fn lemma_step_keeps(n: Newest, m: Option<FileMeta>, p: Seq<char>, t: i128)
    requires
        at_least(n, t),
    ensures
        at_least(newest_step(n, m, p), t),
{
}

proof fn lemma_step_takes(n: Newest, m: Option<FileMeta>, p: Seq<char>)
    requires
        m is Some,
    ensures
        at_least(newest_step(n, m, p), m->0.mtime),
{
}

proof fn lemma_implicit_max(imp: Seq<Seq<char>>, st: StatView, k: int, n: Newest)
    requires
        0 <= k,
    ensures
        implicit_from(imp, st, k, n).missing is None ==> forall|t: i128|
            at_least(n, t) ==> at_least(implicit_from(imp, st, k, n).newest, t),
        implicit_from(imp, st, k, n).missing is None ==> forall|j: int|
            k <= j < imp.len() && #[trigger] st[imp[j]] is Some ==> at_least(
                implicit_from(imp, st, k, n).newest,
                st[imp[j]]->0.mtime,
            ),
    decreases imp.len() - k,
{
    if k < imp.len() {
        if let Some(m) = st[imp[k]] {
            let n1 = newest_step(n, Some(m), imp[k]);
            lemma_implicit_max(imp, st, k + 1, n1);
            let r = implicit_from(imp, st, k, n);
            assert(r == implicit_from(imp, st, k + 1, n1));
            if r.missing is None {
                assert forall|t: i128| at_least(n, t) implies at_least(r.newest, t) by {
                    lemma_step_keeps(n, Some(m), imp[k], t);
                }
                assert forall|j: int| k <= j < imp.len() && #[trigger] st[imp[j]] is Some implies at_least(
                    r.newest,
                    st[imp[j]]->0.mtime,
                ) by {
                    if j == k {
                        lemma_step_takes(n, Some(m), imp[k]);
                    }
                }
            }
        }
    }
}

proof fn lemma_older_found(g: GraphView, outs: Seq<usize>, st: StatView, tin: i128, k: int, j: int)
    requires
        0 <= k <= j < outs.len(),
        st[path_of(g, outs[j])] matches Some(m) && tin > m.mtime,
    ensures
        older_output_from(g, outs, st, tin, k) is Some,
    decreases j - k,
{
    if k < j {
        match st[path_of(g, outs[k])] {
            Some(m) if tin > m.mtime => {},
            _ => lemma_older_found(g, outs, st, tin, k + 1, j),
        }
    }
}

/// An input newer than an output makes an edge dirty: when some explicit
/// or implicit input of edge `e` exists and is strictly newer than some
/// existing output, `e` has a reason to run, whatever position the input
/// and the output have.  (The time compared is the newest over all inputs.)
pub proof fn lemma_newer_input_dirties(
    g: GraphView,
    e: int,
    d: Seq<bool>,
    st: StatView,
    lg: Map<Seq<char>, u64>,
    imp: Seq<Seq<char>>,
    q: Seq<char>,
    o: int,
)
    requires
        0 <= e < g.edges.len(),
        (exists|j: int| 0 <= j < g.edges[e].ins.len() && path_of(g, #[trigger] g.edges[e].ins[j]) == q)
            || imp.contains(q),
        0 <= o < g.edges[e].outs.len(),
        st[q] is Some,
        st[path_of(g, g.edges[e].outs[o])] is Some,
        st[q]->0.mtime > st[path_of(g, g.edges[e].outs[o])]->0.mtime,
    ensures
        dirty_reason(g, e, d, st, lg, imp) is Some,
{
    let edge = g.edges[e];
    let n0 = newest_ins_from(g, edge.ins, st, 0, no_newest());
    let sc = implicit_from(imp, st, 0, n0);
    let tq = st[q]->0.mtime;
    lemma_newest_ins_max(g, edge.ins, st, 0, no_newest());
    lemma_implicit_max(imp, st, 0, n0);
    if sc.missing is None {
        if imp.contains(q) {
            let j = choose|j: int| 0 <= j < imp.len() && imp[j] == q;
            assert(st[imp[j]] is Some);
            assert(at_least(sc.newest, tq));
        } else {
            let j = choose|j: int| 0 <= j < edge.ins.len() && path_of(g, #[trigger] edge.ins[j]) == q;
            assert(st[path_of(g, edge.ins[j])] is Some);
            assert(at_least(n0, tq));
            assert(at_least(sc.newest, tq));
        }
        let tin = sc.newest.time->0;
        lemma_older_found(g, edge.outs, st, tin, 0, o);
    }
}

// ---------------------------------------------------------------------------
// What every plan satisfies
proof fn lemma_dirty_input_found(g: GraphView, ins: Seq<usize>, d: Seq<bool>, k: int, j: int)
    requires
        0 <= k <= j < ins.len(),
        g.nodes[ins[j] as int].producer matches Some(q) && d[q as int],
    ensures
        dirty_input_from(g, ins, d, k) is Some,
    decreases j - k,
{
    if k < j {
        lemma_dirty_input_found(g, ins, d, k + 1, j);
    }
}

/// Rebuilding spreads downstream: a wanted edge one of whose inputs a dirty
/// edge produces is dirty too.
pub proof fn lemma_dirty_input_propagates(g: GraphView, c: PlanCtx, p: PlanView, e: int, n: usize, q: usize)
    requires
        graph_wf(g),
        plan_ok(g, c, p),
        0 <= e < g.edges.len(),
        is_wanted(g, c.targets, e),
        g.edges[e].ins.contains(n),
        g.nodes[n as int].producer == Some(q),
        p.dirty.contains(q),
    ensures
        p.dirty.contains(e as usize),
{
    let len = g.edges.len();
    let d = flags_of(p.dirty, len);
    let j = choose|j: int| 0 <= j < g.edges[e].ins.len() && g.edges[e].ins[j] == n;
    assert(g.edges[e].ins[j] == n);
    assert((n as int) < g.nodes.len()) by {
        assert(edges_ok(g));
    }
    assert(g.nodes[n as int].producer is Some);
    assert(q < len);
    assert(d[q as int]);
    lemma_dirty_input_found(g, g.edges[e].ins, d, 0, j);
    assert(dirty_reason(g, e, d, c.st, c.lg, c.imp[e]) is Some);
    assert(d[e]);
}

/// The plan names only wanted edges, and with `always_make` every wanted
/// edge.
pub proof fn lemma_plan_dirty_wanted(g: GraphView, c: PlanCtx, p: PlanView, e: int)
    requires
        plan_ok(g, c, p),
        0 <= e < g.edges.len(),
    ensures
        p.dirty.contains(e as usize) ==> is_wanted(g, c.targets, e),
        c.always_make && is_wanted(g, c.targets, e) ==> p.dirty.contains(e as usize),
{
    let d = flags_of(p.dirty, g.edges.len());
    assert(d[e] == p.dirty.contains(e as usize));
}

// ---------------------------------------------------------------------------
// What planning reads from disk
/// The depfile that planning reads for edge `e`: that of a wanted edge with
/// GCC depfiles.
pub open spec fn depfile_to_read(g: GraphView, wanted: Seq<bool>, e: int) -> Option<Seq<char>> {
    if wanted[e] && g.edges[e].depformat == DepFormat::Gcc {
        g.edges[e].depfile
    } else {
        None
    }
}

/// The implicit inputs of edge `e` given the text read from its depfile:
/// the dependencies of its first output, sorted, each once.
pub open spec fn implicit_ok(g: GraphView, text: Option<String>, e: int, r: Seq<Seq<char>>) -> bool {
    match text {
        Some(t) if g.edges[e].depformat == DepFormat::Gcc && g.edges[e].depfile is Some => {
            &&& strictly_sorted(r)
            &&& r.to_set() == depfile_deps(vstd::utf8::encode_utf8(t@), path_of(g, g.edges[e].outs[0]))
        },
        _ => r.len() == 0,
    }
}

impl Graph {
    /// For each edge, the depfile to read before planning, if any.
    pub fn depfiles_to_read(&self, wanted: &Vec<bool>) -> (r: Vec<Option<String>>)
        requires
            wanted@.len() == self@.edges.len(),
        ensures
            r@.len() == self@.edges.len(),
            forall|e: int| 0 <= e < r@.len() ==> opt_text(#[trigger] r@[e]) == depfile_to_read(self@, wanted@, e),
    {
        let mut r: Vec<Option<String>> = Vec::new();
        let mut e: usize = 0;
        while e < self.edges.len()
            invariant
                e <= self.edges@.len(),
                wanted@.len() == self@.edges.len(),
                r@.len() == e,
                forall|j: int| 0 <= j < e ==> opt_text(#[trigger] r@[j]) == depfile_to_read(self@, wanted@, j),
            decreases self.edges@.len() - e,
        {
            let edge = &self.edges[e];
            assert(self@.edges[e as int] == edge@);
            if wanted[e] && edge.depformat == DepFormat::Gcc {
                match &edge.depfile {
                    Some(df) => r.push(Some(df.clone())),
                    None => r.push(None),
                }
            } else {
                r.push(None);
            }
            e = e + 1;
        }
        r
    }

    /// The implicit inputs of each edge, from the texts read from their
    /// depfiles (`None` where there was nothing to read or it failed).
    pub fn implicit_inputs(&self, texts: &Vec<Option<String>>) -> (r: Vec<Vec<String>>)
        requires
            edges_ok(self@),
            texts@.len() == self@.edges.len(),
        ensures
            r@.len() == self@.edges.len(),
            forall|e: int| 0 <= e < r@.len() ==> implicit_ok(self@, texts@[e], e, views(#[trigger] r@[e]@)),
    {
        let mut r: Vec<Vec<String>> = Vec::new();
        let mut e: usize = 0;
        while e < self.edges.len()
            invariant
                e <= self.edges@.len(),
                edges_ok(self@),
                texts@.len() == self@.edges.len(),
                r@.len() == e,
                forall|j: int| 0 <= j < e ==> implicit_ok(self@, texts@[j], j, views(#[trigger] r@[j]@)),
            decreases self.edges@.len() - e,
        {
            let edge = &self.edges[e];
            assert(self@.edges[e as int] == edge@);
            let mut deps: Vec<String> = Vec::new();
            if edge.depformat == DepFormat::Gcc && edge.depfile.is_some() {
                if let Some(t) = &texts[e] {
                    let o = edge.outs[0];
                    assert(self@.nodes[o as int] == self.nodes@[o as int]@);
                    deps = parse_depfile(t.as_str(), self.nodes[o].path.as_str());
                }
            }
            assert(views(deps@).len() == deps@.len());
            r.push(deps);
            e = e + 1;
        }
        r
    }

    /// Every path whose stat planning reads: each node's path, each
    /// depfile, each implicit input.
    pub fn stat_paths(&self, implicit: &Vec<Vec<String>>) -> (r: Vec<String>)
        requires
            implicit@.len() == self@.edges.len(),
        ensures
            forall|m: Map<Seq<char>, Option<FileMeta>>|
                (forall|k: int| 0 <= k < r@.len() ==> m.contains_key(#[trigger] r@[k]@)) ==> stat_covers(
                    self@,
                    m,
                    imp_views(implicit@),
                ),
    {
        let mut r: Vec<String> = Vec::new();
        let mut n: usize = 0;
        while n < self.nodes.len()
            invariant
                n <= self.nodes@.len(),
                forall|j: int| 0 <= j < n ==> views(r@).contains(#[trigger] self@.nodes[j].path),
            decreases self.nodes@.len() - n,
        {
            assert(self@.nodes[n as int] == self.nodes@[n as int]@);
            let ghost before = views(r@);
            r.push(self.nodes[n].path.clone());
            assert(views(r@) =~= before.push(self@.nodes[n as int].path));
            assert forall|j: int| 0 <= j < n + 1 implies views(r@).contains(#[trigger] self@.nodes[j].path) by {
                vstd::seq_lib::lemma_seq_contains_after_push(before, self@.nodes[n as int].path, self@.nodes[j].path);
            }
            n = n + 1;
        }
        let mut e: usize = 0;
        while e < self.edges.len()
            invariant
                e <= self.edges@.len(),
                implicit@.len() == self@.edges.len(),
                forall|j: int| 0 <= j < self@.nodes.len() ==> views(r@).contains(#[trigger] self@.nodes[j].path),
                forall|j: int|
                    0 <= j < e && (#[trigger] self@.edges[j]).depfile is Some ==> views(r@).contains(
                        self@.edges[j].depfile->0,
                    ),
                forall|j: int, k: int|
                    0 <= j < e && 0 <= k < imp_views(implicit@)[j].len() ==> views(r@).contains(
                        #[trigger] imp_views(implicit@)[j][k],
                    ),
            decreases self.edges@.len() - e,
        {
            let ghost r0 = views(r@);
            let edge = &self.edges[e];
            assert(self@.edges[e as int] == edge@);
            if let Some(df) = &edge.depfile {
                r.push(df.clone());
                assert(views(r@) =~= r0.push(df@));
            } else {
                assert(views(r@) =~= r0);
            }
            let ghost r1 = views(r@);
            let list = &implicit[e];
            let mut k: usize = 0;
            while k < list.len()
                invariant
                    k <= list@.len(),
                    forall|x: Seq<char>| r1.contains(x) ==> views(r@).contains(x),
                    forall|i: int| 0 <= i < k ==> views(r@).contains(#[trigger] list@[i]@),
                decreases list@.len() - k,
            {
                let ghost before = views(r@);
                r.push(list[k].clone());
                assert(views(r@) =~= before.push(list@[k as int]@));
                assert forall|x: Seq<char>| r1.contains(x) implies views(r@).contains(x) by {
                    vstd::seq_lib::lemma_seq_contains_after_push(before, list@[k as int]@, x);
                }
                assert forall|i: int| 0 <= i < k + 1 implies views(r@).contains(#[trigger] list@[i]@) by {
                    vstd::seq_lib::lemma_seq_contains_after_push(before, list@[k as int]@, list@[i]@);
                }
                k = k + 1;
            }
            proof {
                assert forall|x: Seq<char>| r0.contains(x) implies views(r@).contains(x) by {
                    if edge.depfile is Some {
                        vstd::seq_lib::lemma_seq_contains_after_push(r0, edge@.depfile->0, x);
                    }
                    assert(r1.contains(x));
                }
                if edge.depfile is Some {
                    assert(r1.contains(edge@.depfile->0)) by {
                        assert(r1[r1.len() - 1] == edge@.depfile->0);
                    }
                }
                assert forall|i: int| 0 <= i < imp_views(implicit@)[e as int].len() implies views(r@).contains(
                    #[trigger] imp_views(implicit@)[e as int][i],
                ) by {
                    assert(imp_views(implicit@)[e as int] == views(list@));
                    assert(views(list@)[i] == list@[i]@);
                }
            }
            e = e + 1;
        }
        proof {
            assert forall|m: Map<Seq<char>, Option<FileMeta>>|
                (forall|k: int| 0 <= k < r@.len() ==> m.contains_key(#[trigger] r@[k]@)) implies stat_covers(
                self@,
                m,
                imp_views(implicit@),
            ) by {
                assert forall|x: Seq<char>| views(r@).contains(x) implies m.contains_key(x) by {
                    let k = choose|k: int| 0 <= k < views(r@).len() && views(r@)[k] == x;
                    assert(r@[k]@ == x);
                }
            }
        }
        r
    }
}

} // verus!
