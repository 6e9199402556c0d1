//! The build graph: a node for every path, an edge for every command.
//!
//! `Graph::from_ast` turns the statements of a build description into
//! edges, in order; the functions `add_edge_spec` and `from_ast_spec` below
//! say what each statement adds.
use vstd::prelude::*;

use rustc_hash::FxHashMap;

use crate::error::{build_error, parse_error, ErrorView, KageError, Result};
use crate::expand::{
    default_depfile, expand, expanded, fnv1a, hash_command, join_with, lookup_value, newline_join, quote_all,
    shell_join, shell_joined, shell_quote, shell_quoted, CtxView, ExpandCtx,
};
use crate::fxmap::{
    id_entries, id_map_get, id_map_insert, id_map_new, instruction_map_get, text_entries,
    text_map_insert, text_map_new,
};
use crate::parse::{
    BuildFile, BuildView, DepFormat, Instruction, InstructionView, SpecResult, Statement,
    StatementView,
};
use crate::strutil::{decimal, decimal_string, push_str, views};
use vstd::string::StringSliceAdditionalSpecFns;

verus! {

pub type NodeId = usize;

pub type EdgeId = usize;

/// A path of the build: a source, or an output of one edge.
#[derive(Debug)]
pub struct Node {
    pub path: String,
    pub producer: Option<EdgeId>,
    pub consumers: Vec<EdgeId>,
}

/// One command, with the nodes it reads and writes.
#[derive(Debug)]
pub struct Edge {
    pub ins: Vec<NodeId>,
    pub order_only_ins: Vec<NodeId>,
    pub outs: Vec<NodeId>,
    pub command: String,
    pub description: String,
    pub depformat: DepFormat,
    pub depfile: Option<String>,
    pub restat: bool,
    pub instruction: String,
    pub command_hash: u64,
    pub line: u32,
}

/// The nodes and edges of a build, and the targets built by default.
#[derive(Debug)]
pub struct Graph {
    pub nodes: Vec<Node>,
    pub edges: Vec<Edge>,
    pub path_to_node: FxHashMap<String, NodeId>,
    pub defaults: Vec<NodeId>,
    pub workdir: String,
}

#[verifier::ext_equal]
pub struct NodeView {
    pub path: Seq<char>,
    pub producer: Option<usize>,
    pub consumers: Seq<usize>,
}

pub struct EdgeView {
    pub ins: Seq<usize>,
    pub order_only_ins: Seq<usize>,
    pub outs: Seq<usize>,
    pub command: Seq<char>,
    pub description: Seq<char>,
    pub depformat: DepFormat,
    pub depfile: Option<Seq<char>>,
    pub restat: bool,
    pub instruction: Seq<char>,
    pub command_hash: u64,
    pub line: u32,
}

#[verifier::ext_equal]
pub struct GraphView {
    pub nodes: Seq<NodeView>,
    pub edges: Seq<EdgeView>,
    pub index: Map<Seq<char>, usize>,
    pub defaults: Seq<usize>,
    pub workdir: Seq<char>,
}

impl View for Node {
    type V = NodeView;

    open spec fn view(&self) -> NodeView {
        NodeView { path: self.path@, producer: self.producer, consumers: self.consumers@ }
    }
}

pub open spec fn opt_text(o: Option<String>) -> Option<Seq<char>> {
    match o {
        Some(s) => Some(s@),
        None => None,
    }
}

impl View for Edge {
    type V = EdgeView;

    open spec fn view(&self) -> EdgeView {
        EdgeView {
            ins: self.ins@,
            order_only_ins: self.order_only_ins@,
            outs: self.outs@,
            command: self.command@,
            description: self.description@,
            depformat: self.depformat,
            depfile: opt_text(self.depfile),
            restat: self.restat,
            instruction: self.instruction@,
            command_hash: self.command_hash,
            line: self.line,
        }
    }
}

pub open spec fn node_views(s: Seq<Node>) -> Seq<NodeView> {
    s.map_values(|n: Node| n@)
}

pub open spec fn edge_views(s: Seq<Edge>) -> Seq<EdgeView> {
    s.map_values(|e: Edge| e@)
}

impl View for Graph {
    type V = GraphView;

    open spec fn view(&self) -> GraphView {
        GraphView {
            nodes: node_views(self.nodes@),
            edges: edge_views(self.edges@),
            index: id_entries(self.path_to_node),
            defaults: self.defaults@,
            workdir: self.workdir@,
        }
    }
}

// ---------------------------------------------------------------------------
// Well-formed graphs
/// Every number in `s` is below `n`.
pub open spec fn ids_below(s: Seq<usize>, n: int) -> bool {
    forall|k: int| 0 <= k < s.len() ==> (#[trigger] s[k]) < n
}

/// How often `x` occurs in `s`.
pub open spec fn occ(s: Seq<usize>, x: usize) -> nat
    decreases s.len(),
{
    if s.len() == 0 {
        0
    } else {
        occ(s.drop_last(), x) + if s.last() == x {
            1nat
        } else {
            0nat
        }
    }
}

pub proof fn lemma_occ_push(s: Seq<usize>, y: usize, x: usize)
    ensures
        occ(s.push(y), x) == occ(s, x) + if y == x {
            1nat
        } else {
            0nat
        },
{
    assert(s.push(y).drop_last() =~= s);
}

pub proof fn lemma_occ_absent(s: Seq<usize>, x: usize)
    requires
        ids_below(s, x as int),
    ensures
        occ(s, x) == 0,
    decreases s.len(),
{
    if s.len() > 0 {
        lemma_occ_absent(s.drop_last(), x);
    }
}

/// The index maps each node's path to the node, and nothing else.
pub open spec fn index_ok(g: GraphView) -> bool {
    &&& forall|n: int|
        0 <= n < g.nodes.len() ==> g.index.contains_key(#[trigger] g.nodes[n].path)
            && g.index[g.nodes[n].path] == n
    &&& forall|p: Seq<char>|
        #[trigger] g.index.contains_key(p) ==> {
            let n = g.index[p];
            n < g.nodes.len() && g.nodes[n as int].path == p
        }
}

/// Edges refer to nodes of the graph, each has an input and an output,
/// and no output twice.
pub open spec fn edges_ok(g: GraphView) -> bool {
    forall|e: int|
        0 <= e < g.edges.len() ==> ids_below((#[trigger] g.edges[e]).ins, g.nodes.len() as int)
            && ids_below(g.edges[e].order_only_ins, g.nodes.len() as int) && ids_below(
            g.edges[e].outs,
            g.nodes.len() as int,
        ) && g.edges[e].ins.len() > 0 && g.edges[e].outs.len() > 0 && no_dups(g.edges[e].outs)
}

/// A node's producer is the edge that lists it as an output.
pub open spec fn producers_ok(g: GraphView) -> bool {
    &&& forall|n: int|
        0 <= n < g.nodes.len() && (#[trigger] g.nodes[n]).producer is Some ==> {
            let e = g.nodes[n].producer->0;
            e < g.edges.len() && g.edges[e as int].outs.contains(n as usize)
        }
    &&& forall|e: int, k: int|
        0 <= e < g.edges.len() && 0 <= k < g.edges[e].outs.len() ==> {
            let o = #[trigger] g.edges[e].outs[k];
            g.nodes[o as int].producer == Some(e as usize)
        }
}

/// A node lists an edge as a consumer once for each time the edge reads it.
pub open spec fn consumers_ok(g: GraphView) -> bool {
    &&& forall|n: int|
        0 <= n < g.nodes.len() ==> ids_below((#[trigger] g.nodes[n]).consumers, g.edges.len() as int)
    &&& forall|n: int, e: int|
        0 <= n < g.nodes.len() && 0 <= e < g.edges.len() ==> #[trigger] occ(
            g.nodes[n].consumers,
            e as usize,
        ) == occ(g.edges[e].ins, n as usize) + occ(g.edges[e].order_only_ins, n as usize)
}

/// The invariant of a graph that `from_ast` builds.
pub open spec fn graph_wf(g: GraphView) -> bool {
    &&& g.nodes.len() <= usize::MAX
    &&& g.edges.len() <= usize::MAX
    &&& index_ok(g)
    &&& edges_ok(g)
    &&& producers_ok(g)
    &&& consumers_ok(g)
    &&& ids_below(g.defaults, g.nodes.len() as int)
}

// ---------------------------------------------------------------------------
// Interning paths
/// The graph with a node for `p`, added at the end when there was none.
pub open spec fn with_node(g: GraphView, p: Seq<char>) -> GraphView {
    if g.index.contains_key(p) {
        g
    } else {
        GraphView {
            nodes: g.nodes.push(NodeView { path: p, producer: None, consumers: seq![] }),
            edges: g.edges,
            index: g.index.insert(p, g.nodes.len() as usize),
            defaults: g.defaults,
            workdir: g.workdir,
        }
    }
}

/// The node that `with_node` gives for `p`.
pub open spec fn node_of(g: GraphView, p: Seq<char>) -> usize {
    if g.index.contains_key(p) {
        g.index[p]
    } else {
        g.nodes.len() as usize
    }
}

/// Interning is idempotent: a second `intern` of the same path changes
/// nothing and gives the same node, whose path is the one interned.
pub proof fn lemma_intern_idempotent(g: GraphView, p: Seq<char>)
    requires
        graph_wf(g),
    ensures
        with_node(with_node(g, p), p) == with_node(g, p),
        node_of(with_node(g, p), p) == node_of(g, p),
        with_node(g, p).nodes[node_of(g, p) as int].path == p,
{
}

/// The graph with a node for every path of `ps`, added in order.
pub open spec fn with_nodes(g: GraphView, ps: Seq<Seq<char>>) -> GraphView
    decreases ps.len(),
{
    if ps.len() == 0 {
        g
    } else {
        with_node(with_nodes(g, ps.drop_last()), ps.last())
    }
}

/// The nodes of the paths `ps` in a graph that has them.
pub open spec fn ids_of(g: GraphView, ps: Seq<Seq<char>>) -> Seq<usize> {
    ps.map_values(|p: Seq<char>| g.index[p])
}

/// Interning keeps the graph well formed and keeps every path's node.
pub proof fn lemma_with_node(g: GraphView, p: Seq<char>)
    requires
        graph_wf(g),
        with_node(g, p).nodes.len() <= usize::MAX,
    ensures
        graph_wf(with_node(g, p)),
        with_node(g, p).index.contains_key(p),
        with_node(g, p).index[p] == node_of(g, p),
        forall|q: Seq<char>|
            #[trigger] g.index.contains_key(q) ==> with_node(g, p).index.contains_key(q)
                && with_node(g, p).index[q] == g.index[q],
        with_node(g, p).edges == g.edges,
        with_node(g, p).defaults == g.defaults,
        with_node(g, p).workdir == g.workdir,
        with_node(g, p).nodes.len() >= g.nodes.len(),
        forall|n: int| 0 <= n < g.nodes.len() ==> #[trigger] with_node(g, p).nodes[n] == g.nodes[n],
{
    let h = with_node(g, p);
    if !g.index.contains_key(p) {
        assert forall|n: int, e: int|
            0 <= n < h.nodes.len() && 0 <= e < h.edges.len() implies #[trigger] occ(
            h.nodes[n].consumers,
            e as usize,
        ) == occ(h.edges[e].ins, n as usize) + occ(h.edges[e].order_only_ins, n as usize) by {
            assert(g.edges[e] == h.edges[e]);
            if n == g.nodes.len() {
                lemma_occ_absent(h.edges[e].ins, n as usize);
                lemma_occ_absent(h.edges[e].order_only_ins, n as usize);
            }
        }
        assert forall|e: int|
            0 <= e < h.edges.len() implies ids_below((#[trigger] h.edges[e]).ins, h.nodes.len() as int)
            && ids_below(h.edges[e].order_only_ins, h.nodes.len() as int) && ids_below(
            h.edges[e].outs,
            h.nodes.len() as int,
        ) && h.edges[e].ins.len() > 0 && h.edges[e].outs.len() > 0 && no_dups(h.edges[e].outs) by {
            assert(g.edges[e] == h.edges[e]);
        }
        assert forall|e: int, k: int|
            0 <= e < h.edges.len() && 0 <= k < h.edges[e].outs.len() implies {
            let o = #[trigger] h.edges[e].outs[k];
            h.nodes[o as int].producer == Some(e as usize)
        } by {
            assert(g.edges[e].outs[k] < g.nodes.len());
        }
    }
}

pub proof fn lemma_with_nodes(g: GraphView, ps: Seq<Seq<char>>)
    requires
        graph_wf(g),
        with_nodes(g, ps).nodes.len() <= usize::MAX,
    ensures
        graph_wf(with_nodes(g, ps)),
        forall|k: int| 0 <= k < ps.len() ==> with_nodes(g, ps).index.contains_key(#[trigger] ps[k]),
        forall|q: Seq<char>|
            #[trigger] g.index.contains_key(q) ==> with_nodes(g, ps).index.contains_key(q)
                && with_nodes(g, ps).index[q] == g.index[q],
        with_nodes(g, ps).edges == g.edges,
        with_nodes(g, ps).defaults == g.defaults,
        with_nodes(g, ps).workdir == g.workdir,
        with_nodes(g, ps).nodes.len() >= g.nodes.len(),
        forall|n: int| 0 <= n < g.nodes.len() ==> #[trigger] with_nodes(g, ps).nodes[n] == g.nodes[n],
    decreases ps.len(),
{
    if ps.len() > 0 {
        lemma_with_nodes(g, ps.drop_last());
        let h = with_nodes(g, ps.drop_last());
        lemma_with_node(h, ps.last());
        assert forall|k: int| 0 <= k < ps.len() implies with_nodes(g, ps).index.contains_key(
            #[trigger] ps[k],
        ) by {
            if k < ps.len() - 1 {
                assert(ps.drop_last()[k] == ps[k]);
            }
        }
    }
}

// ---------------------------------------------------------------------------
// What a statement adds
/// Each text expanded, left to right; the first error stops.
pub open spec fn expanded_from(
    ps: Seq<Seq<char>>,
    k: int,
    c: CtxView,
    acc: Seq<Seq<char>>,
) -> SpecResult<Seq<Seq<char>>>
    decreases ps.len() - k,
{
    if k < 0 || k >= ps.len() {
        Ok(acc)
    } else {
        match expanded(ps[k], c) {
            Err(e) => Err(e),
            Ok(x) => expanded_from(ps, k + 1, c, acc.push(x)),
        }
    }
}

pub open spec fn expanded_all(ps: Seq<Seq<char>>, c: CtxView) -> SpecResult<Seq<Seq<char>>> {
    expanded_from(ps, 0, c, seq![])
}

/// The expanded paths of an edge.
pub struct EdgePaths {
    pub ins: Seq<Seq<char>>,
    pub order_only_ins: Seq<Seq<char>>,
    pub outs: Seq<Seq<char>>,
}

pub open spec fn missing_io_msg(line: u32) -> Seq<char> {
    "edge at line "@ + decimal(line as nat) + " is missing inputs or outputs"@
}

/// The paths of a statement's inputs, order-only inputs and outputs,
/// expanded in that order; there must be an input and an output.
pub open spec fn edge_paths_spec(
    c: CtxView,
    ins: Seq<Seq<char>>,
    ooi: Seq<Seq<char>>,
    outs: Seq<Seq<char>>,
    line: u32,
) -> SpecResult<EdgePaths> {
    match expanded_all(ins, c) {
        Err(e) => Err(e),
        Ok(ip) => match expanded_all(ooi, c) {
            Err(e) => Err(e),
            Ok(op) => match expanded_all(outs, c) {
                Err(e) => Err(e),
                Ok(up) => if ip.len() == 0 || up.len() == 0 {
                    Err(build_error(missing_io_msg(line)))
                } else {
                    Ok(EdgePaths { ins: ip, order_only_ins: op, outs: up })
                },
            },
        },
    }
}

/// The depfile of an edge: the instruction's, expanded, or `out.d` for
/// GCC depfiles.
pub open spec fn edge_depfile(inst: InstructionView, c: CtxView, first_out: Seq<char>) -> SpecResult<
    Option<Seq<char>>,
> {
    match inst.depfile {
        Some(t) => match expanded(t, c) {
            Err(e) => Err(e),
            Ok(d) => Ok(Some(d)),
        },
        None => Ok(
            if inst.depformat == DepFormat::Gcc {
                Some(first_out + seq!['.', 'd'])
            } else {
                None
            },
        ),
    }
}

/// The special variables of an edge's command.
pub open spec fn specials_of(ins: Seq<Seq<char>>, outs: Seq<Seq<char>>, df: Option<Seq<char>>) -> Map<
    Seq<char>,
    Seq<char>,
> {
    Map::empty().insert("in"@, shell_joined(ins)).insert("out"@, shell_joined(outs)).insert(
        "in_newline"@,
        join_with(quote_all(ins), seq!['\n']),
    ).insert(
        "depfile"@,
        match df {
            Some(d) => shell_quoted(d),
            None => seq![],
        },
    )
}

pub open spec fn command_ctx(c: CtxView, specials: Map<Seq<char>, Seq<char>>) -> CtxView {
    CtxView { tools: c.tools, flags: c.flags, vars: c.vars, arrays: c.arrays, specials }
}

/// In the command of an edge `$in` stands for all of the edge's inputs and
/// `$out` for all of its outputs, each quoted, in order, between single
/// spaces; `$in_newline` for the inputs quoted, between line feeds; and
/// `$depfile` for the depfile quoted, or nothing.  The command is the
/// instruction's command expanded with these.
pub proof fn lemma_edge_specials(c: CtxView, ins: Seq<Seq<char>>, outs: Seq<Seq<char>>, df: Option<Seq<char>>)
    ensures
        lookup_value(command_ctx(c, specials_of(ins, outs, df)), "in"@) == Ok::<Seq<char>, ErrorView>(
            join_with(ins.map_values(|p: Seq<char>| shell_quoted(p)), seq![' ']),
        ),
        lookup_value(command_ctx(c, specials_of(ins, outs, df)), "out"@) == Ok::<Seq<char>, ErrorView>(
            join_with(outs.map_values(|p: Seq<char>| shell_quoted(p)), seq![' ']),
        ),
        lookup_value(command_ctx(c, specials_of(ins, outs, df)), "in_newline"@) == Ok::<
            Seq<char>,
            ErrorView,
        >(join_with(ins.map_values(|p: Seq<char>| shell_quoted(p)), seq!['\n'])),
        lookup_value(command_ctx(c, specials_of(ins, outs, df)), "depfile"@) == Ok::<Seq<char>, ErrorView>(
            match df {
                Some(d) => shell_quoted(d),
                None => seq![],
            },
        ),
{
    reveal_strlit("in");
    reveal_strlit("out");
    reveal_strlit("in_newline");
    reveal_strlit("depfile");
    assert(quote_all(ins) =~= ins.map_values(|p: Seq<char>| shell_quoted(p)));
    assert(quote_all(outs) =~= outs.map_values(|p: Seq<char>| shell_quoted(p)));
}

/// The command of an edge is the instruction's command expanded where the
/// special names stand for the edge's paths (see `lemma_edge_specials`).
pub proof fn lemma_edge_command(c: CtxView, inst: InstructionView, name: Seq<char>, p: EdgePaths)
    requires
        edge_texts_spec(c, inst, name, p) is Ok,
    ensures
        expanded(
            inst.command,
            command_ctx(c, specials_of(p.ins, p.outs, edge_texts_spec(c, inst, name, p)->Ok_0.depfile)),
        ) == Ok::<Seq<char>, ErrorView>(edge_texts_spec(c, inst, name, p)->Ok_0.command),
{
}

/// What an edge shows while it runs: the instruction's description,
/// expanded, or `link <first output>`, or `<instruction> <first input>`.
pub open spec fn edge_description(
    inst: InstructionView,
    name: Seq<char>,
    cc: CtxView,
    p: EdgePaths,
) -> SpecResult<Seq<char>> {
    match inst.description {
        Some(d) => expanded(d, cc),
        None => Ok(
            if name == "link"@ {
                "link "@ + p.outs[0]
            } else {
                name + " "@ + p.ins[0]
            },
        ),
    }
}

/// The texts of an edge.
pub struct EdgeTexts {
    pub command: Seq<char>,
    pub description: Seq<char>,
    pub depfile: Option<Seq<char>>,
}

pub open spec fn edge_texts_spec(
    c: CtxView,
    inst: InstructionView,
    name: Seq<char>,
    p: EdgePaths,
) -> SpecResult<EdgeTexts> {
    match edge_depfile(inst, c, p.outs[0]) {
        Err(e) => Err(e),
        Ok(df) => {
            let cc = command_ctx(c, specials_of(p.ins, p.outs, df));
            match expanded(inst.command, cc) {
                Err(e) => Err(e),
                Ok(cmd) => match edge_description(inst, name, cc, p) {
                    Err(e) => Err(e),
                    Ok(desc) => Ok(EdgeTexts { command: cmd, description: desc, depfile: df }),
                },
            }
        },
    }
}

/// No text occurs twice.
pub open spec fn no_dups<T>(s: Seq<T>) -> bool {
    forall|a: int, b: int| 0 <= a < b < s.len() ==> s[a] != s[b]
}

/// The first output from `k` on that some edge already produces: an
/// earlier edge, or this one when the output came before in `outs`.
pub open spec fn clash_from(g: GraphView, outs: Seq<usize>, k: int) -> Option<int>
    decreases outs.len() - k,
{
    if k < 0 || k >= outs.len() {
        None
    } else if g.nodes[outs[k] as int].producer is Some || outs.take(k).contains(outs[k]) {
        Some(k)
    } else {
        clash_from(g, outs, k + 1)
    }
}

pub open spec fn clash_msg(path: Seq<char>, prev: u32, line: u32) -> Seq<char> {
    "multiple rules produce '"@ + path + "': lines "@ + decimal(prev as nat) + " and "@ + decimal(
        line as nat,
    )
}

/// `n` copies of `x`.
pub open spec fn repeat(n: nat, x: usize) -> Seq<usize> {
    Seq::new(n, |_i: int| x)
}

/// The nodes once edge `eid` produces `outs` and reads `ins` and `ooi`.
pub open spec fn linked_nodes(
    g: GraphView,
    ins: Seq<usize>,
    ooi: Seq<usize>,
    outs: Seq<usize>,
    eid: usize,
) -> Seq<NodeView> {
    Seq::new(
        g.nodes.len(),
        |n: int|
            NodeView {
                path: g.nodes[n].path,
                producer: if outs.contains(n as usize) {
                    Some(eid)
                } else {
                    g.nodes[n].producer
                },
                consumers: g.nodes[n].consumers + repeat(
                    occ(ins, n as usize) + occ(ooi, n as usize),
                    eid,
                ),
            },
    )
}

/// Node `n` once edge `eid` produces `outs`.
pub open spec fn produced(g: GraphView, outs: Seq<usize>, eid: usize, n: int) -> NodeView {
    NodeView {
        path: g.nodes[n].path,
        producer: if outs.contains(n as usize) {
            Some(eid)
        } else {
            g.nodes[n].producer
        },
        consumers: g.nodes[n].consumers,
    }
}

pub open spec fn produced_nodes(g: GraphView, outs: Seq<usize>, eid: usize) -> Seq<NodeView> {
    Seq::new(g.nodes.len(), |n: int| produced(g, outs, eid, n))
}

/// Node `n` once edge `eid` reads the nodes `ids`.
pub open spec fn consumed(g: GraphView, ids: Seq<usize>, eid: usize, n: int) -> NodeView {
    NodeView {
        path: g.nodes[n].path,
        producer: g.nodes[n].producer,
        consumers: g.nodes[n].consumers + repeat(occ(ids, n as usize), eid),
    }
}

pub open spec fn consumed_nodes(g: GraphView, ids: Seq<usize>, eid: usize) -> Seq<NodeView> {
    Seq::new(g.nodes.len(), |n: int| consumed(g, ids, eid, n))
}

/// The error for the first output that an edge produces already: it names
/// the line of the edge that produces it, which is this edge's own line for
/// an output that this edge lists twice.
pub open spec fn clash_error_spec(g: GraphView, outs: Seq<usize>, line: u32) -> ErrorView {
    let k = clash_from(g, outs, 0)->0;
    let o = outs[k] as int;
    let prev_line = match g.nodes[o].producer {
        Some(prev) => g.edges[prev as int].line,
        None => line,
    };
    build_error(clash_msg(g.nodes[o].path, prev_line, line))
}

pub proof fn lemma_repeat_add(a: nat, b: nat, x: usize)
    ensures
        repeat(a + b, x) =~= repeat(a, x) + repeat(b, x),
{
}

/// The graph with the new edge: its paths interned (inputs, order-only
/// inputs, outputs), its outputs produced by it, its inputs read by it.
/// An output that another edge produces is an error.
pub open spec fn link_edge_spec(
    g: GraphView,
    p: EdgePaths,
    t: EdgeTexts,
    inst: InstructionView,
    name: Seq<char>,
    line: u32,
) -> SpecResult<GraphView> {
    let g1 = with_nodes(with_nodes(with_nodes(g, p.ins), p.order_only_ins), p.outs);
    let ii = ids_of(g1, p.ins);
    let oi = ids_of(g1, p.order_only_ins);
    let ui = ids_of(g1, p.outs);
    let eid = g.edges.len() as usize;
    match clash_from(g1, ui, 0) {
        Some(k) => Err(clash_error_spec(g1, ui, line)),
        None => Ok(
            GraphView {
                nodes: linked_nodes(g1, ii, oi, ui, eid),
                edges: g1.edges.push(
                    EdgeView {
                        ins: ii,
                        order_only_ins: oi,
                        outs: ui,
                        command: t.command,
                        description: t.description,
                        depformat: inst.depformat,
                        depfile: t.depfile,
                        restat: inst.restat,
                        instruction: name,
                        command_hash: fnv1a(vstd::utf8::encode_utf8(t.command)),
                        line,
                    },
                ),
                index: g1.index,
                defaults: g1.defaults,
                workdir: g1.workdir,
            },
        ),
    }
}

/// What `add_edge` does with one `compile` or `link` statement.
pub open spec fn add_edge_spec(
    g: GraphView,
    c: CtxView,
    name: Seq<char>,
    inst: InstructionView,
    ins: Seq<Seq<char>>,
    ooi: Seq<Seq<char>>,
    outs: Seq<Seq<char>>,
    line: u32,
) -> SpecResult<GraphView> {
    match edge_paths_spec(c, ins, ooi, outs, line) {
        Err(e) => Err(e),
        Ok(p) => match edge_texts_spec(c, inst, name, p) {
            Err(e) => Err(e),
            Ok(t) => link_edge_spec(g, p, t, inst, name, line),
        },
    }
}

pub proof fn lemma_occ_concat(a: Seq<usize>, b: Seq<usize>, x: usize)
    ensures
        occ(a + b, x) == occ(a, x) + occ(b, x),
    decreases b.len(),
{
    if b.len() > 0 {
        lemma_occ_concat(a, b.drop_last(), x);
        assert((a + b).drop_last() =~= a + b.drop_last());
    }
}

pub proof fn lemma_occ_repeat(n: nat, y: usize, x: usize)
    ensures
        occ(repeat(n, y), x) == if x == y {
            n
        } else {
            0
        },
    decreases n,
{
    if n > 0 {
        lemma_occ_repeat((n - 1) as nat, y, x);
        assert(repeat(n, y).drop_last() =~= repeat((n - 1) as nat, y));
    }
}

pub proof fn lemma_clash_none(g: GraphView, outs: Seq<usize>, k: int)
    requires
        0 <= k,
        clash_from(g, outs, k) is None,
    ensures
        forall|j: int| k <= j < outs.len() ==> g.nodes[#[trigger] outs[j] as int].producer is None,
        forall|j: int| k <= j < outs.len() ==> !outs.take(j).contains(#[trigger] outs[j]),
    decreases outs.len() - k,
{
    if k < outs.len() {
        lemma_clash_none(g, outs, k + 1);
    }
}

/// Before the first clash from `0`, no output had a producer; so an output
/// met again at the clash had none either.
pub proof fn lemma_clash_prefix(g: GraphView, outs: Seq<usize>, k: int)
    requires
        0 <= k < outs.len(),
        clash_from(g, outs, 0) == clash_from(g, outs, k),
        clash_from(g, outs, k) == Some(k),
    ensures
        forall|j: int| 0 <= j < k ==> g.nodes[#[trigger] outs[j] as int].producer is None,
        outs.take(k).contains(outs[k]) ==> g.nodes[outs[k] as int].producer is None,
{
    lemma_clash_before(g, outs, 0, k);
    if outs.take(k).contains(outs[k]) {
        let j = choose|j: int| 0 <= j < k && outs.take(k)[j] == outs[k];
        assert(outs[j] == outs[k]);
    }
}

proof fn lemma_clash_before(g: GraphView, outs: Seq<usize>, i: int, k: int)
    requires
        0 <= i <= k < outs.len(),
        clash_from(g, outs, i) == Some(k),
    ensures
        forall|j: int| i <= j < k ==> g.nodes[#[trigger] outs[j] as int].producer is None,
    decreases k - i,
{
    if i < k {
        lemma_clash_before(g, outs, i + 1, k);
    }
}

/// Outputs without a clash are distinct.
pub proof fn lemma_clash_none_distinct(g: GraphView, outs: Seq<usize>)
    requires
        clash_from(g, outs, 0) is None,
    ensures
        no_dups(outs),
{
    lemma_clash_none(g, outs, 0);
    assert forall|a: int, b: int| 0 <= a < b < outs.len() implies outs[a] != outs[b] by {
        assert(!outs.take(b).contains(outs[b]));
        assert(outs.take(b)[a] == outs[a]);
    }
}

/// Linking an edge whose outputs no edge produced keeps the graph well
/// formed.
pub proof fn lemma_link_wf(
    g: GraphView,
    ii: Seq<usize>,
    oi: Seq<usize>,
    ui: Seq<usize>,
    e: EdgeView,
)
    requires
        graph_wf(g),
        g.edges.len() < usize::MAX,
        ids_below(ii, g.nodes.len() as int),
        ids_below(oi, g.nodes.len() as int),
        ids_below(ui, g.nodes.len() as int),
        clash_from(g, ui, 0) is None,
        ii.len() > 0,
        ui.len() > 0,
        no_dups(ui),
        e.ins == ii,
        e.order_only_ins == oi,
        e.outs == ui,
    ensures
        graph_wf(
            GraphView {
                nodes: linked_nodes(g, ii, oi, ui, g.edges.len() as usize),
                edges: g.edges.push(e),
                index: g.index,
                defaults: g.defaults,
                workdir: g.workdir,
            },
        ),
{
    let eid = g.edges.len() as usize;
    let h = GraphView {
        nodes: linked_nodes(g, ii, oi, ui, eid),
        edges: g.edges.push(e),
        index: g.index,
        defaults: g.defaults,
        workdir: g.workdir,
    };
    lemma_clash_none(g, ui, 0);
    assert forall|n: int| 0 <= n < h.nodes.len() implies h.index.contains_key(
        #[trigger] h.nodes[n].path,
    ) && h.index[h.nodes[n].path] == n by {
        assert(h.nodes[n].path == g.nodes[n].path);
    }
    assert forall|q: Seq<char>| #[trigger] h.index.contains_key(q) implies {
        let n = h.index[q];
        n < h.nodes.len() && h.nodes[n as int].path == q
    } by {
        assert(h.nodes[g.index[q] as int].path == g.nodes[g.index[q] as int].path);
    }
    assert forall|x: int|
        0 <= x < h.edges.len() implies ids_below((#[trigger] h.edges[x]).ins, h.nodes.len() as int)
        && ids_below(h.edges[x].order_only_ins, h.nodes.len() as int) && ids_below(
        h.edges[x].outs,
        h.nodes.len() as int,
    ) && h.edges[x].ins.len() > 0 && h.edges[x].outs.len() > 0 && no_dups(h.edges[x].outs) by {
        if x < g.edges.len() {
            assert(h.edges[x] == g.edges[x]);
        }
    }
    assert forall|n: int| 0 <= n < h.nodes.len() && (#[trigger] h.nodes[n]).producer is Some implies {
        let x = h.nodes[n].producer->0;
        x < h.edges.len() && h.edges[x as int].outs.contains(n as usize)
    } by {
        if !ui.contains(n as usize) {
            let x = g.nodes[n].producer->0;
            assert(h.edges[x as int] == g.edges[x as int]);
        }
    }
    assert forall|x: int, k: int| 0 <= x < h.edges.len() && 0 <= k < h.edges[x].outs.len() implies {
        let o = #[trigger] h.edges[x].outs[k];
        h.nodes[o as int].producer == Some(x as usize)
    } by {
        if x < g.edges.len() {
            assert(h.edges[x] == g.edges[x]);
            let o = g.edges[x].outs[k];
            assert(g.nodes[o as int].producer == Some(x as usize));
            if ui.contains(o) {
                let j = choose|j: int| 0 <= j < ui.len() && ui[j] == o;
                assert(g.nodes[ui[j] as int].producer is None);
            }
        } else {
            assert(ui[k] == h.edges[x].outs[k]);
            assert(ui.contains(ui[k]));
        }
    }
    assert forall|n: int| 0 <= n < h.nodes.len() implies ids_below(
        (#[trigger] h.nodes[n]).consumers,
        h.edges.len() as int,
    ) by {
        let c0 = g.nodes[n].consumers;
        let r = repeat(occ(ii, n as usize) + occ(oi, n as usize), eid);
        assert(h.nodes[n].consumers == c0 + r);
        assert forall|k: int| 0 <= k < (c0 + r).len() implies (#[trigger] (c0 + r)[k])
            < h.edges.len() by {
            if k < c0.len() {
                assert((c0 + r)[k] == c0[k]);
            }
        }
    }
    assert forall|n: int, x: int| 0 <= n < h.nodes.len() && 0 <= x < h.edges.len() implies #[trigger] occ(
        h.nodes[n].consumers,
        x as usize,
    ) == occ(h.edges[x].ins, n as usize) + occ(h.edges[x].order_only_ins, n as usize) by {
        let c0 = g.nodes[n].consumers;
        let cnt = occ(ii, n as usize) + occ(oi, n as usize);
        assert(h.nodes[n].consumers == c0 + repeat(cnt, eid));
        lemma_occ_concat(c0, repeat(cnt, eid), x as usize);
        lemma_occ_repeat(cnt, eid, x as usize);
        if x < g.edges.len() {
            assert(h.edges[x] == g.edges[x]);
        } else {
            lemma_occ_absent(c0, eid);
        }
    }
}

/// The context for expanding paths: the build's names, no special variables.
pub open spec fn path_ctx(b: BuildView) -> CtxView {
    CtxView { tools: b.tools, flags: b.flags, vars: b.vars, arrays: b.arrays, specials: Map::empty() }
}

pub open spec fn empty_graph(workdir: Seq<char>) -> GraphView {
    GraphView { nodes: seq![], edges: seq![], index: Map::empty(), defaults: seq![], workdir }
}

pub open spec fn unknown_instruction_msg(name: Seq<char>) -> Seq<char> {
    "unknown instruction '"@ + name + "'"@
}

pub open spec fn missing_link_msg() -> Seq<char> {
    "link statement requires an 'instruction link { ... }'"@
}

/// The edge of one statement: a `compile` uses its named instruction, a
/// `link` the instruction named `link`.
#[verifier::opaque]
pub open spec fn statement_edge(b: BuildView, g: GraphView, s: StatementView) -> SpecResult<
    GraphView,
> {
    let c = path_ctx(b);
    match s {
        StatementView::Compile { instruction, inputs, order_only_inputs, outputs, line } => {
            if b.instructions.contains_key(instruction) {
                add_edge_spec(
                    g,
                    c,
                    instruction,
                    b.instructions[instruction],
                    inputs,
                    order_only_inputs,
                    outputs,
                    line,
                )
            } else {
                Err(parse_error(b.file, line, 1, unknown_instruction_msg(instruction)))
            }
        },
        StatementView::Link { inputs, order_only_inputs, outputs, line } => {
            if b.instructions.contains_key("link"@) {
                add_edge_spec(
                    g,
                    c,
                    "link"@,
                    b.instructions["link"@],
                    inputs,
                    order_only_inputs,
                    outputs,
                    line,
                )
            } else {
                Err(parse_error(b.file, line, 1, missing_link_msg()))
            }
        },
    }
}

/// The edges of the statements from the `k`th on, added in order.
pub open spec fn edges_from(b: BuildView, g: GraphView, k: int) -> SpecResult<GraphView>
    decreases b.statements.len() - k,
{
    if k < 0 || k >= b.statements.len() {
        Ok(g)
    } else {
        match statement_edge(b, g, b.statements[k]) {
            Err(e) => Err(e),
            Ok(g1) => edges_from(b, g1, k + 1),
        }
    }
}


/// The nodes below `n` that some edge produces and none reads.
pub open spec fn auto_defaults(nodes: Seq<NodeView>, n: int) -> Seq<usize>
    decreases n,
{
    if n <= 0 {
        seq![]
    } else {
        let d = auto_defaults(nodes, n - 1);
        if nodes[n - 1].producer is Some && nodes[n - 1].consumers.len() == 0 {
            d.push((n - 1) as usize)
        } else {
            d
        }
    }
}

pub open spec fn unknown_default_msg(name: Seq<char>) -> Seq<char> {
    "unknown default target '"@ + name + "'"@
}

/// The named defaults from the `k`th on, expanded and found in order.
pub open spec fn named_defaults(b: BuildView, g: GraphView, k: int, acc: Seq<usize>) -> SpecResult<
    Seq<usize>,
>
    decreases b.defaults.len() - k,
{
    if k < 0 || k >= b.defaults.len() {
        Ok(acc)
    } else {
        match expanded(b.defaults[k], path_ctx(b)) {
            Err(e) => Err(e),
            Ok(x) => match find_target_spec(g, x) {
                None => Err(build_error(unknown_default_msg(x))),
                Some(id) => named_defaults(b, g, k + 1, acc.push(id)),
            },
        }
    }
}

pub open spec fn with_defaults(g: GraphView, d: Seq<usize>) -> GraphView {
    GraphView { nodes: g.nodes, edges: g.edges, index: g.index, defaults: d, workdir: g.workdir }
}

/// The graph of a build description: its edges, and its default targets,
/// those it names or else every produced output that nothing reads.
pub open spec fn from_ast_spec(b: BuildView, workdir: Seq<char>) -> SpecResult<GraphView> {
    match edges_from(b, empty_graph(workdir), 0) {
        Err(e) => Err(e),
        Ok(g) => if b.defaults.len() == 0 {
            Ok(with_defaults(g, auto_defaults(g.nodes, g.nodes.len() as int)))
        } else {
            match named_defaults(b, g, 0, seq![]) {
                Err(e) => Err(e),
                Ok(d) => Ok(with_defaults(g, d)),
            }
        },
    }
}

// ---------------------------------------------------------------------------
// Consumer order
/// Each node lists its consumers in ascending order, and each of them is
/// an edge of the graph.
pub open spec fn consumers_ascending(g: GraphView) -> bool {
    &&& forall|n: int|
        0 <= n < g.nodes.len() ==> ids_below((#[trigger] g.nodes[n]).consumers, g.edges.len() as int)
    &&& forall|n: int, i: int, j: int|
        0 <= n < g.nodes.len() && 0 <= i <= j < g.nodes[n].consumers.len() ==> (
        #[trigger] g.nodes[n].consumers[i]) <= #[trigger] g.nodes[n].consumers[j]
}

proof fn lemma_with_node_ascending(g: GraphView, p: Seq<char>)
    requires
        consumers_ascending(g),
    ensures
        consumers_ascending(with_node(g, p)),
        with_node(g, p).edges == g.edges,
{
    let h = with_node(g, p);
    if !g.index.contains_key(p) {
        assert forall|n: int| 0 <= n < h.nodes.len() implies ids_below(
            (#[trigger] h.nodes[n]).consumers,
            h.edges.len() as int,
        ) by {
            if n < g.nodes.len() {
                assert(h.nodes[n] == g.nodes[n]);
            }
        }
        assert forall|n: int, i: int, j: int|
            0 <= n < h.nodes.len() && 0 <= i <= j < h.nodes[n].consumers.len() implies (
            #[trigger] h.nodes[n].consumers[i]) <= #[trigger] h.nodes[n].consumers[j] by {
            assert(n < g.nodes.len());
            assert(h.nodes[n] == g.nodes[n]);
        }
    }
}

proof fn lemma_with_nodes_ascending(g: GraphView, ps: Seq<Seq<char>>)
    requires
        consumers_ascending(g),
    ensures
        consumers_ascending(with_nodes(g, ps)),
        with_nodes(g, ps).edges == g.edges,
    decreases ps.len(),
{
    if ps.len() > 0 {
        lemma_with_nodes_ascending(g, ps.drop_last());
        lemma_with_node_ascending(with_nodes(g, ps.drop_last()), ps.last());
    }
}

proof fn lemma_link_ascending(
    g: GraphView,
    p: EdgePaths,
    t: EdgeTexts,
    inst: InstructionView,
    name: Seq<char>,
    line: u32,
)
    requires
        consumers_ascending(g),
        g.edges.len() < usize::MAX,
        link_edge_spec(g, p, t, inst, name, line) is Ok,
    ensures
        consumers_ascending(link_edge_spec(g, p, t, inst, name, line)->Ok_0),
        link_edge_spec(g, p, t, inst, name, line)->Ok_0.edges.len() == g.edges.len() + 1,
{
    let g0 = with_nodes(g, p.ins);
    let g01 = with_nodes(g0, p.order_only_ins);
    let g1 = with_nodes(g01, p.outs);
    lemma_with_nodes_ascending(g, p.ins);
    lemma_with_nodes_ascending(g0, p.order_only_ins);
    lemma_with_nodes_ascending(g01, p.outs);
    let ii = ids_of(g1, p.ins);
    let oi = ids_of(g1, p.order_only_ins);
    let ui = ids_of(g1, p.outs);
    let eid = g.edges.len() as usize;
    let h = link_edge_spec(g, p, t, inst, name, line)->Ok_0;
    assert(h.nodes == linked_nodes(g1, ii, oi, ui, eid));
    assert(h.edges.len() == g.edges.len() + 1);
    assert forall|n: int| 0 <= n < h.nodes.len() implies ids_below(
        (#[trigger] h.nodes[n]).consumers,
        h.edges.len() as int,
    ) by {
        let c0 = g1.nodes[n].consumers;
        let r = repeat(occ(ii, n as usize) + occ(oi, n as usize), eid);
        assert(h.nodes[n].consumers == c0 + r);
        assert forall|k: int| 0 <= k < (c0 + r).len() implies (#[trigger] (c0 + r)[k]) < h.edges.len() by {
            if k < c0.len() {
                assert((c0 + r)[k] == c0[k]);
            } else {
                assert((c0 + r)[k] == r[k - c0.len()]);
            }
        }
    }
    assert forall|n: int, i: int, j: int|
        0 <= n < h.nodes.len() && 0 <= i <= j < h.nodes[n].consumers.len() implies (
        #[trigger] h.nodes[n].consumers[i]) <= #[trigger] h.nodes[n].consumers[j] by {
        let c0 = g1.nodes[n].consumers;
        let r = repeat(occ(ii, n as usize) + occ(oi, n as usize), eid);
        assert(h.nodes[n].consumers == c0 + r);
        assert(ids_below(g1.nodes[n].consumers, g1.edges.len() as int));
        if j < c0.len() {
            assert(c0[i] <= c0[j]);
        } else if i < c0.len() {
            assert(c0[i] < eid);
            assert((c0 + r)[j] == r[j - c0.len()]);
        } else {
            assert((c0 + r)[i] == r[i - c0.len()]);
            assert((c0 + r)[j] == r[j - c0.len()]);
        }
    }
}

proof fn lemma_edges_from_ascending(b: BuildView, g: GraphView, k: int)
    requires
        consumers_ascending(g),
        0 <= k,
        g.edges.len() + b.statements.len() - k <= usize::MAX,
        edges_from(b, g, k) is Ok,
    ensures
        consumers_ascending(edges_from(b, g, k)->Ok_0),
    decreases b.statements.len() - k,
{
    reveal(statement_edge);
    if 0 <= k < b.statements.len() {
        let s = b.statements[k];
        let c = path_ctx(b);
        assert(statement_edge(b, g, s) is Ok);
        let g1 = statement_edge(b, g, s)->Ok_0;
        match s {
            StatementView::Compile { instruction, inputs, order_only_inputs, outputs, line } => {
                assert(b.instructions.contains_key(instruction));
                let inst = b.instructions[instruction];
                assert(add_edge_spec(g, c, instruction, inst, inputs, order_only_inputs, outputs, line) is Ok);
                let p = edge_paths_spec(c, inputs, order_only_inputs, outputs, line)->Ok_0;
                let t = edge_texts_spec(c, inst, instruction, p)->Ok_0;
                lemma_link_ascending(g, p, t, inst, instruction, line);
            },
            StatementView::Link { inputs, order_only_inputs, outputs, line } => {
                assert(b.instructions.contains_key("link"@));
                let inst = b.instructions["link"@];
                assert(add_edge_spec(g, c, "link"@, inst, inputs, order_only_inputs, outputs, line) is Ok);
                let p = edge_paths_spec(c, inputs, order_only_inputs, outputs, line)->Ok_0;
                let t = edge_texts_spec(c, inst, "link"@, p)->Ok_0;
                lemma_link_ascending(g, p, t, inst, "link"@, line);
            },
        }
        lemma_edges_from_ascending(b, g1, k + 1);
    }
}

/// Each node of a built graph lists the edges that read it in ascending
/// order (once per reading, as `graph_wf` counts them).
pub proof fn lemma_consumers_ascending(b: BuildView, workdir: Seq<char>)
    requires
        b.statements.len() <= usize::MAX,
        from_ast_spec(b, workdir) is Ok,
    ensures
        consumers_ascending(from_ast_spec(b, workdir)->Ok_0),
{
    lemma_edges_from_ascending(b, empty_graph(workdir), 0);
}

// ---------------------------------------------------------------------------
// Finding targets
/// `s` ends with `t`.
pub open spec fn has_suffix(s: Seq<char>, t: Seq<char>) -> bool {
    t.len() <= s.len() && s.subrange(s.len() - t.len(), s.len() as int) == t
}

/// Where the path component that ends at `end` starts.
pub open spec fn component_start(p: Seq<char>, end: int) -> int
    decreases end,
{
    if end <= 0 {
        0
    } else if p[end - 1] == '/' {
        end
    } else {
        component_start(p, end - 1)
    }
}

pub proof fn lemma_component_start(p: Seq<char>, end: int)
    ensures
        end <= 0 ==> component_start(p, end) == 0,
        end > 0 ==> 0 <= component_start(p, end) <= end,
    decreases end,
{
    if end > 0 && p[end - 1] != '/' {
        lemma_component_start(p, end - 1);
    }
}

/// The last component of `p[..end]` as `Path::file_name` gives it: empty
/// components and `.` are passed over, and there is none when the last
/// component is `..` or there is no component.
pub open spec fn file_name_upto(p: Seq<char>, end: int) -> Option<Seq<char>>
    decreases end + 1,
{
    if end <= 0 {
        None
    } else {
        let s = component_start(p, end);
        proof {
            lemma_component_start(p, end);
        }
        let part = p.subrange(s, end);
        if part.len() == 0 || part == seq!['.'] {
            if s <= 0 {
                None
            } else {
                file_name_upto(p, s - 1)
            }
        } else if part == seq!['.', '.'] {
            None
        } else {
            Some(part)
        }
    }
}

pub open spec fn file_name(p: Seq<char>) -> Option<Seq<char>> {
    file_name_upto(p, p.len() as int)
}

/// A target name names a path: the path itself, a suffix after a `/`, or
/// the file name.
pub open spec fn target_matches(path: Seq<char>, name: Seq<char>) -> bool {
    path == name || has_suffix(path, seq!['/'] + name) || file_name(path) == Some(name)
}

/// The produced nodes below `n` whose paths the name names.
pub open spec fn hits_upto(nodes: Seq<NodeView>, name: Seq<char>, n: int) -> Seq<usize>
    decreases n,
{
    if n <= 0 {
        seq![]
    } else {
        let h = hits_upto(nodes, name, n - 1);
        if nodes[n - 1].producer is Some && target_matches(nodes[n - 1].path, name) {
            h.push((n - 1) as usize)
        } else {
            h
        }
    }
}

/// The node of a path, or else the one produced node that the name names.
#[verifier::opaque]
pub open spec fn find_target_spec(g: GraphView, name: Seq<char>) -> Option<usize> {
    if g.index.contains_key(name) {
        Some(g.index[name])
    } else {
        let h = hits_upto(g.nodes, name, g.nodes.len() as int);
        if h.len() == 1 {
            Some(h[0])
        } else {
            None
        }
    }
}

pub open spec fn unknown_target_msg(name: Seq<char>) -> Seq<char> {
    "unknown target '"@ + name + "'"@
}

/// The targets of the names from the `k`th on, in order.
pub open spec fn resolve_from(g: GraphView, names: Seq<Seq<char>>, k: int, acc: Seq<usize>) -> SpecResult<
    Seq<usize>,
>
    decreases names.len() - k,
{
    if k < 0 || k >= names.len() {
        Ok(acc)
    } else {
        match find_target_spec(g, names[k]) {
            None => Err(build_error(unknown_target_msg(names[k]))),
            Some(id) => resolve_from(g, names, k + 1, acc.push(id)),
        }
    }
}

/// The nodes to build: those of the names, or the defaults when no name is
/// given.
pub open spec fn resolve_spec(g: GraphView, names: Seq<Seq<char>>) -> SpecResult<Seq<usize>> {
    if names.len() == 0 {
        if g.defaults.len() == 0 {
            Err(build_error("no targets to build"@))
        } else {
            Ok(g.defaults)
        }
    } else {
        resolve_from(g, names, 0, seq![])
    }
}

/// A resolved target is a node of the graph.
pub proof fn lemma_resolved_below(g: GraphView, names: Seq<Seq<char>>, k: int, acc: Seq<usize>)
    requires
        graph_wf(g),
        ids_below(acc, g.nodes.len() as int),
    ensures
        resolve_from(g, names, k, acc) matches Ok(v) ==> ids_below(v, g.nodes.len() as int),
    decreases names.len() - k,
{
    if 0 <= k < names.len() {
        lemma_find_target_below(g, names[k]);
        if let Some(id) = find_target_spec(g, names[k]) {
            lemma_resolved_below(g, names, k + 1, acc.push(id));
        }
    }
}

proof fn lemma_resolve_from_each(g: GraphView, names: Seq<Seq<char>>, k: int, acc: Seq<usize>)
    requires
        0 <= k <= names.len(),
    ensures
        (resolve_from(g, names, k, acc) is Ok) == (forall|j: int|
            k <= j < names.len() ==> #[trigger] find_target_spec(g, names[j]) is Some),
        resolve_from(g, names, k, acc) matches Ok(v) ==> {
            &&& v.len() == acc.len() + names.len() - k
            &&& v.take(acc.len() as int) == acc
            &&& forall|j: int|
                k <= j < names.len() ==> v[acc.len() + j - k] == (#[trigger] find_target_spec(
                    g,
                    names[j],
                ))->Some_0
        },
    decreases names.len() - k,
{
    if k < names.len() {
        match find_target_spec(g, names[k]) {
            None => {},
            Some(id) => {
                lemma_resolve_from_each(g, names, k + 1, acc.push(id));
                if let Ok(v) = resolve_from(g, names, k, acc) {
                    assert(v.take(acc.len() as int) =~= v.take(acc.len() as int + 1).take(acc.len() as int));
                    assert(v.take(acc.len() as int + 1) == acc.push(id));
                    assert(v[acc.len() as int] == acc.push(id)[acc.len() as int]);
                }
            },
        }
    } else {
        if let Ok(v) = resolve_from(g, names, k, acc) {
            assert(v.take(acc.len() as int) =~= acc);
        }
    }
}

/// Each named target resolves to its own node, in the order named: when
/// names are given, resolving succeeds exactly when every name is found,
/// and then gives one node per name, the one `find_target` gives for it.
pub proof fn lemma_resolve_each_name(g: GraphView, names: Seq<Seq<char>>)
    requires
        names.len() > 0,
    ensures
        (resolve_spec(g, names) is Ok) == (forall|k: int|
            0 <= k < names.len() ==> #[trigger] find_target_spec(g, names[k]) is Some),
        resolve_spec(g, names) matches Ok(v) ==> {
            &&& v.len() == names.len()
            &&& forall|k: int|
                0 <= k < names.len() ==> v[k] == (#[trigger] find_target_spec(g, names[k]))->Some_0
        },
{
    lemma_resolve_from_each(g, names, 0, seq![]);
}

/// The output paths of the edges `e..`, edge by edge.
pub open spec fn outputs_from(g: GraphView, e: int) -> Seq<Seq<char>>
    decreases g.edges.len() - e,
{
    if e < 0 || e >= g.edges.len() {
        seq![]
    } else {
        g.edges[e].outs.map_values(|o: usize| g.nodes[o as int].path) + outputs_from(g, e + 1)
    }
}

impl Graph {
    /// The node for `path`, added when there is none yet.
    pub fn intern(&mut self, path: &str) -> (id: NodeId)
        ensures
            final(self)@ == with_node(old(self)@, path@),
            id == node_of(old(self)@, path@),
    {
        if let Some(id) = id_map_get(&self.path_to_node, path) {
            return id;
        }
        let id = self.nodes.len();
        id_map_insert(&mut self.path_to_node, path.to_owned(), id);
        self.nodes.push(Node { path: path.to_owned(), producer: None, consumers: Vec::new() });
        assert(node_views(self.nodes@) =~= node_views(old(self).nodes@).push(
            NodeView { path: path@, producer: None, consumers: seq![] },
        ));
        assert(self@ =~= with_node(old(self)@, path@));
        id
    }

    /// Interns every path, in order.
    fn intern_all(&mut self, ps: &Vec<String>) -> (ids: Vec<NodeId>)
        requires
            graph_wf(old(self)@),
        ensures
            final(self)@ == with_nodes(old(self)@, views(ps@)),
            ids@ == ids_of(final(self)@, views(ps@)),
            graph_wf(final(self)@),
    {
        let ghost g0 = self@;
        let ghost vs = views(ps@);
        let mut ids: Vec<NodeId> = Vec::new();
        let mut k: usize = 0;
        assert(vs.take(0) =~= Seq::<Seq<char>>::empty());
        assert(ids@ =~= ids_of(self@, vs.take(0)));
        while k < ps.len()
            invariant
                k <= ps@.len(),
                vs == views(ps@),
                self@ == with_nodes(g0, vs.take(k as int)),
                ids@ == ids_of(self@, vs.take(k as int)),
                graph_wf(g0),
                graph_wf(self@),
            decreases ps@.len() - k,
        {
            assert(self.nodes.len() == self.nodes@.len());
            let ghost before = self@;
            assert(vs.take(k + 1).drop_last() =~= vs.take(k as int));
            let id = self.intern(ps[k].as_str());
            assert(self.nodes.len() == self.nodes@.len());
            proof {
                lemma_with_nodes(g0, vs.take(k as int));
                lemma_with_node(before, vs[k as int]);
            }
            ids.push(id);
            assert forall|j: int| 0 <= j < k + 1 implies #[trigger] ids@[j] == self@.index[vs.take(
                k + 1,
            )[j]] by {
                if j < k {
                    assert(vs.take(k as int)[j] == vs.take(k + 1)[j]);
                    assert(before.index.contains_key(vs.take(k as int)[j]));
                }
            }
            assert(ids@ =~= ids_of(self@, vs.take(k + 1)));
            k = k + 1;
        }
        assert(vs.take(ps@.len() as int) =~= vs);
        ids
    }

    /// Adds the edge of one `compile` or `link` statement.
    fn add_edge(
        &mut self,
        path_ctx: &ExpandCtx,
        inst_name: &str,
        inst: &Instruction,
        inputs: &Vec<String>,
        order_only_inputs: &Vec<String>,
        outputs: &Vec<String>,
        line: u32,
    ) -> (r: Result<()>)
        requires
            graph_wf(old(self)@),
        ensures
            ({
                let s = add_edge_spec(
                    old(self)@,
                    path_ctx@,
                    inst_name@,
                    inst@,
                    views(inputs@),
                    views(order_only_inputs@),
                    views(outputs@),
                    line,
                );
                &&& r is Ok == s is Ok
                &&& r is Ok ==> final(self)@ == s->Ok_0 && graph_wf(final(self)@)
                &&& r matches Err(e) ==> s->Err_0 == e@
            }),
    {
        let (ins_paths, ooi_paths, out_paths) = match edge_paths(
            path_ctx,
            inputs,
            order_only_inputs,
            outputs,
            line,
        ) {
            Ok(t) => t,
            Err(e) => {
                return Err(e);
            },
        };
        let (command, description, depfile) = match edge_texts(
            path_ctx,
            inst,
            inst_name,
            &ins_paths,
            &ooi_paths,
            &out_paths,
        ) {
            Ok(t) => t,
            Err(e) => {
                return Err(e);
            },
        };
        self.link_edge(
            &ins_paths,
            &ooi_paths,
            &out_paths,
            command,
            description,
            depfile,
            inst,
            inst_name,
            line,
        )
    }

    /// Adds the edge of one statement of `build`.
    fn add_statement(&mut self, build: &BuildFile, ctx: &ExpandCtx, stmt: &Statement) -> (r: Result<
        (),
    >)
        requires
            graph_wf(old(self)@),
            ctx@ == path_ctx(build@),
        ensures
            r is Ok == statement_edge(build@, old(self)@, stmt@) is Ok,
            r is Ok ==> final(self)@ == statement_edge(build@, old(self)@, stmt@)->Ok_0 && graph_wf(
                final(self)@,
            ),
            r matches Err(e) ==> statement_edge(build@, old(self)@, stmt@)->Err_0 == e@,
    {
        reveal(statement_edge);
        match stmt {
            Statement::Compile { instruction, inputs, order_only_inputs, outputs, line } => {
                let inst = match instruction_map_get(&build.instructions, instruction.as_str()) {
                    Some(i) => i,
                    None => {
                        let mut msg = String::new();
                        push_str(&mut msg, "unknown instruction '");
                        push_str(&mut msg, instruction.as_str());
                        push_str(&mut msg, "'");
                        return Err(KageError::parse(build.file.as_str(), *line, 1, msg));
                    },
                };
                self.add_edge(ctx, instruction.as_str(), inst, inputs, order_only_inputs, outputs, *line)
            },
            Statement::Link { inputs, order_only_inputs, outputs, line } => {
                let inst = match instruction_map_get(&build.instructions, "link") {
                    Some(i) => i,
                    None => {
                        let mut msg = String::new();
                        push_str(&mut msg, "link statement requires an 'instruction link { ... }'");
                        return Err(KageError::parse(build.file.as_str(), *line, 1, msg));
                    },
                };
                self.add_edge(ctx, "link", inst, inputs, order_only_inputs, outputs, *line)
            },
        }
    }

    /// Adds the edges of all statements of `build`, in order.
    fn add_statements(&mut self, build: &BuildFile, ctx: &ExpandCtx) -> (r: Result<()>)
        requires
            graph_wf(old(self)@),
            ctx@ == path_ctx(build@),
        ensures
            r is Ok == edges_from(build@, old(self)@, 0) is Ok,
            r is Ok ==> final(self)@ == edges_from(build@, old(self)@, 0)->Ok_0 && graph_wf(
                final(self)@,
            ),
            r matches Err(e) ==> edges_from(build@, old(self)@, 0)->Err_0 == e@,
    {
        let ghost g0 = self@;
        let mut k: usize = 0;
        while k < build.statements.len()
            invariant
                k <= build.statements@.len(),
                ctx@ == path_ctx(build@),
                edges_from(build@, g0, 0) == edges_from(build@, self@, k as int),
                graph_wf(self@),
                g0 == old(self)@,
            decreases build.statements@.len() - k,
        {
            let stmt = &build.statements[k];
            assert(build@.statements[k as int] == stmt@);
            match self.add_statement(build, ctx, stmt) {
                Ok(()) => {},
                Err(e) => {
                    return Err(e);
                },
            }
            k = k + 1;
        }
        Ok(())
    }

    /// The produced nodes that no edge reads, in order.
    fn auto_default_nodes(&self) -> (d: Vec<NodeId>)
        requires
            graph_wf(self@),
        ensures
            d@ == auto_defaults(self@.nodes, self@.nodes.len() as int),
            graph_wf(with_defaults(self@, d@)),
    {
        let mut d: Vec<NodeId> = Vec::new();
        let mut i: usize = 0;
        while i < self.nodes.len()
            invariant
                i <= self.nodes@.len(),
                d@ == auto_defaults(self@.nodes, i as int),
            decreases self.nodes@.len() - i,
        {
            assert(self@.nodes[i as int] == self.nodes@[i as int]@);
            if self.nodes[i].producer.is_some() && self.nodes[i].consumers.len() == 0 {
                d.push(i);
            }
            i = i + 1;
        }
        proof {
            lemma_auto_defaults_below(self@.nodes, self@.nodes.len() as int);
        }
        d
    }

    /// The named default targets of `build`, expanded and found in order.
    fn named_default_nodes(&self, build: &BuildFile, ctx: &ExpandCtx) -> (r: Result<Vec<NodeId>>)
        requires
            graph_wf(self@),
            ctx@ == path_ctx(build@),
        ensures
            r is Ok == named_defaults(build@, self@, 0, seq![]) is Ok,
            r matches Ok(d) ==> named_defaults(build@, self@, 0, seq![])->Ok_0 == d@ && graph_wf(
                with_defaults(self@, d@),
            ),
            r matches Err(e) ==> named_defaults(build@, self@, 0, seq![])->Err_0 == e@,
    {
        let mut d: Vec<NodeId> = Vec::new();
        let mut j: usize = 0;
        while j < build.defaults.len()
            invariant
                j <= build.defaults@.len(),
                ctx@ == path_ctx(build@),
                graph_wf(self@),
                ids_below(d@, self@.nodes.len() as int),
                named_defaults(build@, self@, 0, seq![]) == named_defaults(
                    build@,
                    self@,
                    j as int,
                    d@,
                ),
            decreases build.defaults@.len() - j,
        {
            assert(build@.defaults[j as int] == build.defaults@[j as int]@);
            let x = match expand(build.defaults[j].as_str(), ctx) {
                Ok(x) => x,
                Err(e) => {
                    return Err(e);
                },
            };
            let id = match self.find_target(x.as_str()) {
                Some(id) => id,
                None => {
                    let mut msg = String::new();
                    push_str(&mut msg, "unknown default target '");
                    push_str(&mut msg, x.as_str());
                    push_str(&mut msg, "'");
                    return Err(KageError::build(msg));
                },
            };
            proof {
                lemma_find_target_below(self@, x@);
            }
            d.push(id);
            j = j + 1;
        }
        Ok(d)
    }

    /// Builds the graph of a build description.
    pub fn from_ast(build: &BuildFile, workdir: String) -> (r: Result<Graph>)
        ensures
            r is Ok == from_ast_spec(build@, workdir@) is Ok,
            r matches Ok(g) ==> g@ == from_ast_spec(build@, workdir@)->Ok_0 && graph_wf(g@),
            r matches Ok(g) ==> consumers_ascending(g@),
            r matches Err(e) ==> from_ast_spec(build@, workdir@)->Err_0 == e@,
    {
        let ghost w = workdir@;
        let mut g = Graph {
            nodes: Vec::new(),
            edges: Vec::new(),
            path_to_node: id_map_new(),
            defaults: Vec::new(),
            workdir,
        };
        assert(g@ =~= empty_graph(w));
        let empty_specials = text_map_new();
        let ctx = ExpandCtx::from_build(build, &empty_specials);
        assert(ctx@.specials =~= Map::<Seq<char>, Seq<char>>::empty());
        assert(ctx@ == path_ctx(build@));
        match g.add_statements(build, &ctx) {
            Ok(()) => {},
            Err(e) => {
                return Err(e);
            },
        }
        let ghost ge = g@;
        if build.defaults.len() == 0 {
            let d = g.auto_default_nodes();
            g.defaults = d;
            assert(g@ =~= with_defaults(ge, d@));
        } else {
            let d = match g.named_default_nodes(build, &ctx) {
                Ok(d) => d,
                Err(e) => {
                    return Err(e);
                },
            };
            g.defaults = d;
            assert(g@ =~= with_defaults(ge, d@));
        }
        proof {
            assert(build@.statements.len() == build.statements.len());
            lemma_consumers_ascending(build@, w);
        }
        Ok(g)
    }

    /// The node for a target name: the node of that path, or else the one
    /// produced node that the name names; none when several or none do.
    pub fn find_target(&self, name: &str) -> (r: Option<NodeId>)
        ensures
            r == find_target_spec(self@, name@),
    {
        reveal(find_target_spec);
        if let Some(id) = id_map_get(&self.path_to_node, name) {
            return Some(id);
        }
        let nc = crate::strutil::chars_of(name);
        let mut hits: Vec<NodeId> = Vec::new();
        let mut i: usize = 0;
        while i < self.nodes.len()
            invariant
                i <= self.nodes@.len(),
                nc@ == name@,
                hits@ == hits_upto(self@.nodes, name@, i as int),
            decreases self.nodes@.len() - i,
        {
            assert(self@.nodes[i as int] == self.nodes@[i as int]@);
            if self.nodes[i].producer.is_some() {
                let path = &self.nodes[i].path;
                let pc = crate::strutil::chars_of(path.as_str());
                let same = crate::strutil::str_eq(path.as_str(), name);
                let under = ends_with_component(&pc, &nc);
                let named = match file_name_of(&pc) {
                    Some(f) => crate::strutil::str_eq(f.as_str(), name),
                    None => false,
                };
                if same || under || named {
                    hits.push(i);
                }
            }
            i = i + 1;
        }
        if hits.len() == 1 {
            Some(hits[0])
        } else {
            None
        }
    }

    /// The nodes of the named targets, or the default targets.
    pub fn resolve_targets(&self, names: &[String]) -> (r: Result<Vec<NodeId>>)
        ensures
            r is Ok == resolve_spec(self@, views(names@)) is Ok,
            r matches Ok(v) ==> resolve_spec(self@, views(names@))->Ok_0 == v@,
            r matches Err(e) ==> resolve_spec(self@, views(names@))->Err_0 == e@,
            graph_wf(self@) ==> (r matches Ok(v) ==> ids_below(v@, self@.nodes.len() as int)),
    {
        proof {
            if graph_wf(self@) {
                lemma_resolved_below(self@, views(names@), 0, seq![]);
            }
        }
        if names.len() == 0 {
            if self.defaults.len() == 0 {
                let mut msg = String::new();
                push_str(&mut msg, "no targets to build");
                return Err(KageError::build(msg));
            }
            let mut d: Vec<NodeId> = Vec::new();
            let mut i: usize = 0;
            while i < self.defaults.len()
                invariant
                    i <= self.defaults@.len(),
                    d@ == self.defaults@.take(i as int),
                decreases self.defaults@.len() - i,
            {
                d.push(self.defaults[i]);
                i = i + 1;
                assert(d@ =~= self.defaults@.take(i as int));
            }
            assert(self.defaults@.take(self.defaults@.len() as int) =~= self.defaults@);
            return Ok(d);
        }
        let mut out: Vec<NodeId> = Vec::new();
        let mut k: usize = 0;
        while k < names.len()
            invariant
                k <= names@.len(),
                names@.len() > 0,
                resolve_spec(self@, views(names@)) == resolve_from(self@, views(names@), k as int, out@),
            decreases names@.len() - k,
        {
            assert(views(names@)[k as int] == names@[k as int]@);
            let id = match self.find_target(names[k].as_str()) {
                Some(id) => id,
                None => {
                    let mut msg = String::new();
                    push_str(&mut msg, "unknown target '");
                    push_str(&mut msg, names[k].as_str());
                    push_str(&mut msg, "'");
                    return Err(KageError::build(msg));
                },
            };
            out.push(id);
            k = k + 1;
        }
        Ok(out)
    }

    /// The paths of every edge's outputs, edge by edge.
    pub fn outputs(&self) -> (r: Vec<String>)
        requires
            edges_ok(self@),
        ensures
            views(r@) == outputs_from(self@, 0),
    {
        let mut r: Vec<String> = Vec::new();
        let mut e: usize = 0;
        assert(views(r@) =~= Seq::<Seq<char>>::empty());
        while e < self.edges.len()
            invariant
                e <= self.edges@.len(),
                edges_ok(self@),
                views(r@) + outputs_from(self@, e as int) == outputs_from(self@, 0),
            decreases self.edges@.len() - e,
        {
            let ghost r0 = views(r@);
            let edge = &self.edges[e];
            assert(self@.edges[e as int] == edge@);
            let mut k: usize = 0;
            while k < edge.outs.len()
                invariant
                    k <= edge.outs@.len(),
                    e < self.edges@.len(),
                    edge@ == self@.edges[e as int],
                    ids_below(edge.outs@, self@.nodes.len() as int),
                    views(r@) == r0 + edge.outs@.take(k as int).map_values(
                        |o: usize| self@.nodes[o as int].path,
                    ),
                decreases edge.outs@.len() - k,
            {
                let o = edge.outs[k];
                assert(self@.nodes[o as int] == self.nodes@[o as int]@);
                let ghost before = views(r@);
                r.push(self.nodes[o].path.clone());
                assert(views(r@) =~= before.push(self@.nodes[o as int].path));
                assert(edge.outs@.take(k + 1).map_values(|o: usize| self@.nodes[o as int].path)
                    =~= edge.outs@.take(k as int).map_values(|o: usize| self@.nodes[o as int].path).push(
                    self@.nodes[o as int].path,
                ));
                k = k + 1;
            }
            assert(edge.outs@.take(edge.outs@.len() as int) =~= edge.outs@);
            assert(views(r@) + outputs_from(self@, e + 1) =~= r0 + outputs_from(self@, e as int));
            e = e + 1;
        }
        r
    }

    /// Makes edge `eid` the producer of `outs`; an output that some edge
    /// produces already is an error.
    fn set_producers(&mut self, outs: &Vec<NodeId>, eid: EdgeId, line: u32) -> (r: Result<()>)
        requires
            graph_wf(old(self)@),
            old(self)@.nodes.len() <= usize::MAX,
            ids_below(outs@, old(self)@.nodes.len() as int),
            eid == old(self)@.edges.len(),
        ensures
            r is Ok == clash_from(old(self)@, outs@, 0) is None,
            r matches Err(e) ==> e@ == clash_error_spec(old(self)@, outs@, line),
            r is Ok ==> final(self)@ == (GraphView {
                nodes: produced_nodes(old(self)@, outs@, eid),
                edges: old(self)@.edges,
                index: old(self)@.index,
                defaults: old(self)@.defaults,
                workdir: old(self)@.workdir,
            }),
    {
        let ghost g = self@;
        let mut k: usize = 0;
        while k < outs.len()
            invariant
                k <= outs@.len(),
                g == old(self)@,
                graph_wf(g),
                g.nodes.len() <= usize::MAX,
                ids_below(outs@, g.nodes.len() as int),
                eid == g.edges.len(),
                clash_from(g, outs@, 0) == clash_from(g, outs@, k as int),
                self@.edges == g.edges,
                self@.index == g.index,
                self@.defaults == g.defaults,
                self@.workdir == g.workdir,
                self@.nodes.len() == g.nodes.len(),
                forall|n: int|
                    0 <= n < g.nodes.len() ==> (#[trigger] self@.nodes[n]) =~= produced(
                        g,
                        outs@.take(k as int),
                        eid,
                        n,
                    ),
            decreases outs@.len() - k,
        {
            let o = outs[k];
            assert(self@.nodes[o as int] == self.nodes@[o as int]@);
            assert(self@.nodes[o as int] =~= produced(g, outs@.take(k as int), eid, o as int));
            if let Some(prev) = self.nodes[o].producer {
                assert(clash_from(g, outs@, k as int) == Some(k as int));
                proof {
                    lemma_clash_prefix(g, outs@, k as int);
                }
                let prev_line = if prev < self.edges.len() {
                    assert(!outs@.take(k as int).contains(o));
                    assert(g.nodes[o as int].producer == Some(prev));
                    assert(self@.edges[prev as int] == self.edges@[prev as int]@);
                    self.edges[prev].line
                } else {
                    assert(outs@.take(k as int).contains(o));
                    assert(g.nodes[o as int].producer is None);
                    line
                };
                let e = clash_error(self.nodes[o].path.as_str(), prev_line, line);
                return Err(e);
            }
            assert(clash_from(g, outs@, k as int) == clash_from(g, outs@, k + 1));
            let ghost bn = self.nodes@;
            let ghost before = self@;
            self.nodes[o].producer = Some(eid);
            assert forall|n: int| 0 <= n < g.nodes.len() implies (#[trigger] self@.nodes[n]) =~= produced(
                g,
                outs@.take(k + 1),
                eid,
                n,
            ) by {
                assert(outs@.take(k + 1) =~= outs@.take(k as int).push(o));
                vstd::seq_lib::lemma_seq_contains_after_push(outs@.take(k as int), o, n as usize);
                assert(before.nodes[n] =~= produced(g, outs@.take(k as int), eid, n));
                assert(before.nodes[n] == bn[n]@);
                if n != o {
                    assert(self.nodes@[n] == bn[n]);
                }
            }
            k = k + 1;
        }
        assert(outs@.take(outs@.len() as int) =~= outs@);
        assert(self@.nodes =~= produced_nodes(g, outs@, eid));
        Ok(())
    }

    /// Records edge `eid` as a consumer of each node of `ids`.
    fn add_consumers(&mut self, ids: &Vec<NodeId>, eid: EdgeId)
        requires
            ids_below(ids@, old(self)@.nodes.len() as int),
            old(self)@.nodes.len() <= usize::MAX,
        ensures
            final(self)@ == (GraphView {
                nodes: consumed_nodes(old(self)@, ids@, eid),
                edges: old(self)@.edges,
                index: old(self)@.index,
                defaults: old(self)@.defaults,
                workdir: old(self)@.workdir,
            }),
    {
        let ghost g = self@;
        let mut k: usize = 0;
        while k < ids.len()
            invariant
                k <= ids@.len(),
                g == old(self)@,
                g.nodes.len() <= usize::MAX,
                ids_below(ids@, g.nodes.len() as int),
                self@.edges == g.edges,
                self@.index == g.index,
                self@.defaults == g.defaults,
                self@.workdir == g.workdir,
                self@.nodes.len() == g.nodes.len(),
                forall|n: int|
                    0 <= n < g.nodes.len() ==> (#[trigger] self@.nodes[n]) =~= consumed(
                        g,
                        ids@.take(k as int),
                        eid,
                        n,
                    ),
            decreases ids@.len() - k,
        {
            let i = ids[k];
            let ghost bn = self.nodes@;
            let ghost before = self@;
            self.nodes[i].consumers.push(eid);
            assert(self.nodes@[i as int].consumers@ == bn[i as int].consumers@.push(eid));
            assert forall|n: int| 0 <= n < g.nodes.len() implies (#[trigger] self@.nodes[n]) =~= consumed(
                g,
                ids@.take(k + 1),
                eid,
                n,
            ) by {
                assert(ids@.take(k + 1) =~= ids@.take(k as int).push(i));
                lemma_occ_push(ids@.take(k as int), i, n as usize);
                assert(before.nodes[n] =~= consumed(g, ids@.take(k as int), eid, n));
                assert(before.nodes[n] == bn[n]@);
                if n == i {
                    assert(g.nodes[n].consumers + repeat(occ(ids@.take(k + 1), n as usize), eid)
                        =~= (g.nodes[n].consumers + repeat(occ(ids@.take(k as int), n as usize), eid)).push(eid));
                } else {
                    assert(self.nodes@[n] == bn[n]);
                }
            }
            k = k + 1;
        }
        assert(ids@.take(ids@.len() as int) =~= ids@);
        assert(self@.nodes =~= consumed_nodes(g, ids@, eid));
    }

    /// Adds an edge for paths and texts already computed.
    fn link_edge(
        &mut self,
        ins_paths: &Vec<String>,
        ooi_paths: &Vec<String>,
        out_paths: &Vec<String>,
        command: String,
        description: String,
        depfile: Option<String>,
        inst: &Instruction,
        inst_name: &str,
        line: u32,
    ) -> (r: Result<()>)
        requires
            graph_wf(old(self)@),
            ins_paths@.len() > 0,
            out_paths@.len() > 0,
        ensures
            ({
                let p = EdgePaths {
                    ins: views(ins_paths@),
                    order_only_ins: views(ooi_paths@),
                    outs: views(out_paths@),
                };
                let t = EdgeTexts {
                    command: command@,
                    description: description@,
                    depfile: opt_text(depfile),
                };
                let s = link_edge_spec(old(self)@, p, t, inst@, inst_name@, line);
                &&& r is Ok == s is Ok
                &&& r is Ok ==> final(self)@ == s->Ok_0 && graph_wf(final(self)@)
                &&& r matches Err(e) ==> s->Err_0 == e@
            }),
    {
        let ghost g0 = self@;
        let ghost pi = views(ins_paths@);
        let ghost po = views(ooi_paths@);
        let ghost pu = views(out_paths@);
        let ins = self.intern_all(ins_paths);
        let ghost ga = self@;
        let ooi = self.intern_all(ooi_paths);
        assert(self.nodes.len() == self.nodes@.len());
        let ghost gb = self@;
        let outs = self.intern_all(out_paths);
        assert(self.nodes.len() == self.nodes@.len());
        let ghost g1 = self@;
        proof {
            lemma_with_nodes(ga, po);
            lemma_with_nodes(gb, pu);
            lemma_with_nodes(g0, pi);
            assert forall|j: int| 0 <= j < ins@.len() implies #[trigger] ins@[j] == g1.index[pi[j]] by {
                assert(ga.index.contains_key(pi[j]));
            }
            assert(ins@ =~= ids_of(g1, pi));
            assert forall|j: int| 0 <= j < ooi@.len() implies #[trigger] ooi@[j] == g1.index[po[j]] by {
                assert(gb.index.contains_key(po[j]));
            }
            assert(ooi@ =~= ids_of(g1, po));
            assert forall|j: int| 0 <= j < outs@.len() implies #[trigger] outs@[j] < g1.nodes.len() by {
                assert(g1.index.contains_key(pu[j]));
            }
            assert forall|j: int| 0 <= j < ins@.len() implies #[trigger] ins@[j] < g1.nodes.len() by {
                assert(g1.index.contains_key(pi[j]));
            }
            assert forall|j: int| 0 <= j < ooi@.len() implies #[trigger] ooi@[j] < g1.nodes.len() by {
                assert(g1.index.contains_key(po[j]));
            }
        }
        let eid = self.edges.len();
        match self.set_producers(&outs, eid, line) {
            Ok(()) => {},
            Err(e) => {
                return Err(e);
            },
        }
        self.add_consumers(&ins, eid);
        self.add_consumers(&ooi, eid);
        proof {
            lemma_clash_none(g1, outs@, 0);
            lemma_clash_none_distinct(g1, outs@);
        }
        let command_hash = hash_command(command.as_str());
        let edge = Edge {
            ins,
            order_only_ins: ooi,
            outs,
            command,
            description,
            depformat: inst.depformat,
            depfile,
            restat: inst.restat,
            instruction: inst_name.to_owned(),
            command_hash,
            line,
        };
        let ghost ev = edge@;
        self.edges.push(edge);
        assert(self.edges.len() == self.edges@.len());
        proof {
            let ln = linked_nodes(g1, ins@, ooi@, outs@, eid);
            assert forall|n: int| 0 <= n < g1.nodes.len() implies #[trigger] self@.nodes[n] =~= ln[n] by {
                lemma_repeat_add(occ(ins@, n as usize), occ(ooi@, n as usize), eid);
            }
            assert(self@.nodes =~= ln);
            assert(edge_views(self.edges@) =~= g1.edges.push(ev));
            assert(ev.outs == ids_of(g1, pu));
            lemma_link_wf(g1, ins@, ooi@, outs@, ev);
        }
        Ok(())
    }
}


/// Expands each path, in order.
fn expand_all(ps: &Vec<String>, ctx: &ExpandCtx) -> (r: Result<Vec<String>>)
    ensures
        r is Ok == expanded_all(views(ps@), ctx@) is Ok,
        r matches Ok(v) ==> expanded_all(views(ps@), ctx@)->Ok_0 == views(v@),
        r matches Err(e) ==> expanded_all(views(ps@), ctx@)->Err_0 == e@,
{
    let mut out: Vec<String> = Vec::new();
    let mut k: usize = 0;
    assert(views(out@) =~= Seq::<Seq<char>>::empty());
    while k < ps.len()
        invariant
            k <= ps@.len(),
            expanded_all(views(ps@), ctx@) == expanded_from(views(ps@), k as int, ctx@, views(out@)),
        decreases ps@.len() - k,
    {
        let x = match expand(ps[k].as_str(), ctx) {
            Ok(x) => x,
            Err(e) => {
                return Err(e);
            },
        };
        let ghost o = views(out@);
        out.push(x);
        assert(views(out@) =~= o.push(x@));
        k = k + 1;
    }
    Ok(out)
}

fn missing_io_error(line: u32) -> (r: KageError)
    ensures
        r@ == build_error(missing_io_msg(line)),
{
    let mut msg = String::new();
    push_str(&mut msg, "edge at line ");
    let l = decimal_string(line as u128);
    push_str(&mut msg, l.as_str());
    push_str(&mut msg, " is missing inputs or outputs");
    KageError::build(msg)
}

/// The expanded paths of a statement.
fn edge_paths(
    ctx: &ExpandCtx,
    inputs: &Vec<String>,
    order_only_inputs: &Vec<String>,
    outputs: &Vec<String>,
    line: u32,
) -> (r: Result<(Vec<String>, Vec<String>, Vec<String>)>)
    ensures
        r is Ok == edge_paths_spec(
            ctx@,
            views(inputs@),
            views(order_only_inputs@),
            views(outputs@),
            line,
        ) is Ok,
        r matches Ok((a, b, c)) ==> edge_paths_spec(
            ctx@,
            views(inputs@),
            views(order_only_inputs@),
            views(outputs@),
            line,
        )->Ok_0 == (EdgePaths { ins: views(a@), order_only_ins: views(b@), outs: views(c@) }),
        r matches Ok((a, b, c)) ==> a@.len() > 0 && c@.len() > 0,
        r matches Err(e) ==> edge_paths_spec(
            ctx@,
            views(inputs@),
            views(order_only_inputs@),
            views(outputs@),
            line,
        )->Err_0 == e@,
{
    let ins_paths = match expand_all(inputs, ctx) {
        Ok(v) => v,
        Err(e) => {
            return Err(e);
        },
    };
    let ooi_paths = match expand_all(order_only_inputs, ctx) {
        Ok(v) => v,
        Err(e) => {
            return Err(e);
        },
    };
    let out_paths = match expand_all(outputs, ctx) {
        Ok(v) => v,
        Err(e) => {
            return Err(e);
        },
    };
    if ins_paths.len() == 0 || out_paths.len() == 0 {
        return Err(missing_io_error(line));
    }
    Ok((ins_paths, ooi_paths, out_paths))
}

/// The command, description and depfile of an edge.
fn edge_texts(
    ctx: &ExpandCtx,
    inst: &Instruction,
    inst_name: &str,
    ins_paths: &Vec<String>,
    ooi_paths: &Vec<String>,
    out_paths: &Vec<String>,
) -> (r: Result<(String, String, Option<String>)>)
    requires
        ins_paths@.len() > 0,
        out_paths@.len() > 0,
    ensures
        ({
            let p = EdgePaths {
                ins: views(ins_paths@),
                order_only_ins: views(ooi_paths@),
                outs: views(out_paths@),
            };
            let s = edge_texts_spec(ctx@, inst@, inst_name@, p);
            &&& r is Ok == s is Ok
            &&& r matches Ok((cmd, desc, df)) ==> s->Ok_0 == (EdgeTexts {
                command: cmd@,
                description: desc@,
                depfile: opt_text(df),
            })
            &&& r matches Err(e) ==> s->Err_0 == e@
        }),
{
    let depfile = match &inst.depfile {
        Some(t) => match expand(t.as_str(), ctx) {
            Ok(d) => Some(d),
            Err(e) => {
                return Err(e);
            },
        },
        None => default_depfile(out_paths[0].as_str(), inst.depformat),
    };
    let mut specials = text_map_new();
    text_map_insert(&mut specials, "in".to_owned(), shell_join(ins_paths));
    text_map_insert(&mut specials, "out".to_owned(), shell_join(out_paths));
    text_map_insert(&mut specials, "in_newline".to_owned(), newline_join(ins_paths));
    match &depfile {
        Some(df) => {
            text_map_insert(&mut specials, "depfile".to_owned(), shell_quote(df.as_str()));
        },
        None => {
            text_map_insert(&mut specials, "depfile".to_owned(), String::new());
        },
    }
    let ghost p = EdgePaths {
        ins: views(ins_paths@),
        order_only_ins: views(ooi_paths@),
        outs: views(out_paths@),
    };
    assert(text_entries(specials) =~= specials_of(p.ins, p.outs, opt_text(depfile)));
    let cmd_ctx = ExpandCtx {
        file: ctx.file,
        tools: ctx.tools,
        flags: ctx.flags,
        vars: ctx.vars,
        arrays: ctx.arrays,
        specials: &specials,
    };
    assert(cmd_ctx@ == command_ctx(ctx@, specials_of(p.ins, p.outs, opt_text(depfile))));
    let command = match expand(inst.command.as_str(), &cmd_ctx) {
        Ok(c) => c,
        Err(e) => {
            return Err(e);
        },
    };
    let description = match &inst.description {
        Some(d) => match expand(d.as_str(), &cmd_ctx) {
            Ok(x) => x,
            Err(e) => {
                return Err(e);
            },
        },
        None => {
            let mut d = String::new();
            if crate::strutil::str_eq(inst_name, "link") {
                push_str(&mut d, "link ");
                push_str(&mut d, out_paths[0].as_str());
            } else {
                push_str(&mut d, inst_name);
                push_str(&mut d, " ");
                push_str(&mut d, ins_paths[0].as_str());
            }
            d
        },
    };
    Ok((command, description, depfile))
}


fn clash_error(path: &str, prev: u32, line: u32) -> (r: KageError)
    ensures
        r@ == build_error(clash_msg(path@, prev, line)),
{
    let mut msg = String::new();
    push_str(&mut msg, "multiple rules produce '");
    push_str(&mut msg, path);
    push_str(&mut msg, "': lines ");
    let a = decimal_string(prev as u128);
    push_str(&mut msg, a.as_str());
    push_str(&mut msg, " and ");
    let b = decimal_string(line as u128);
    push_str(&mut msg, b.as_str());
    KageError::build(msg)
}


/// `p` ends with `/` and then `name`.
fn ends_with_component(p: &Vec<char>, name: &Vec<char>) -> (r: bool)
    ensures
        r == has_suffix(p@, seq!['/'] + name@),
{
    let ghost t = seq!['/'] + name@;
    assert(t.len() == name@.len() + 1);
    if name.len() >= p.len() {
        return false;
    }
    let base = p.len() - name.len();
    if p[base - 1] != '/' {
        assert(p@.subrange(p@.len() - t.len(), p@.len() as int)[0] != t[0]);
        return false;
    }
    let mut j: usize = 0;
    assert(p.len() == p@.len());
    while j < name.len()
        invariant
            j <= name@.len(),
            base + name@.len() == p@.len(),
            p@.len() <= usize::MAX,
            t == seq!['/'] + name@,
            1 <= base <= p@.len(),
            forall|m: int| 0 <= m < j ==> p@[base + m] == name@[m],
        decreases name@.len() - j,
    {
        if p[base + j] != name[j] {
            assert(p@.subrange(p@.len() - t.len(), p@.len() as int)[j + 1] != t[j + 1]);
            return false;
        }
        j = j + 1;
    }
    assert(p@.subrange(p@.len() - t.len(), p@.len() as int) =~= t);
    true
}

/// The last component of a path, as `Path::file_name` gives it.
fn file_name_of(p: &Vec<char>) -> (r: Option<String>)
    ensures
        r matches Some(x) ==> file_name(p@) == Some(x@),
        r is None ==> file_name(p@) is None,
{
    let mut end: usize = p.len();
    loop
        invariant
            end <= p@.len(),
            file_name(p@) == file_name_upto(p@, end as int),
        decreases end,
    {
        if end == 0 {
            return None;
        }
        let mut s: usize = end;
        while s > 0 && p[s - 1] != '/'
            invariant
                s <= end,
                end <= p@.len(),
                component_start(p@, end as int) == component_start(p@, s as int),
            decreases s,
        {
            s = s - 1;
        }
        assert(component_start(p@, s as int) == s);
        proof {
            lemma_component_start(p@, end as int);
        }
        let ghost part = p@.subrange(s as int, end as int);
        if end - s == 0 || (end - s == 1 && p[s] == '.') {
            assert(part.len() == 0 || part =~= seq!['.']);
            if s == 0 {
                return None;
            }
            end = s - 1;
        } else if end - s == 2 && p[s] == '.' && p[s + 1] == '.' {
            assert(part =~= seq!['.', '.']);
            return None;
        } else {
            assert(part.len() == end - s);
            assert(part != seq!['.']) by {
                if part == seq!['.'] {
                    assert(part[0] == seq!['.'][0]);
                    assert(part[0] == p@[s as int]);
                }
            }
            assert(part != seq!['.', '.']) by {
                if part == seq!['.', '.'] {
                    assert(part[0] == seq!['.', '.'][0]);
                    assert(part[1] == seq!['.', '.'][1]);
                    assert(part[0] == p@[s as int]);
                    assert(part[1] == p@[s + 1]);
                }
            }
            return Some(crate::strutil::string_of_range(p, s, end));
        }
    }
}

pub proof fn lemma_auto_defaults_below(nodes: Seq<NodeView>, n: int)
    requires
        n <= nodes.len(),
    ensures
        ids_below(auto_defaults(nodes, n), nodes.len() as int),
    decreases n,
{
    if n > 0 {
        lemma_auto_defaults_below(nodes, n - 1);
    }
}

pub proof fn lemma_hits_below(nodes: Seq<NodeView>, name: Seq<char>, n: int)
    requires
        n <= nodes.len(),
    ensures
        ids_below(hits_upto(nodes, name, n), nodes.len() as int),
    decreases n,
{
    if n > 0 {
        lemma_hits_below(nodes, name, n - 1);
    }
}

/// A found target is a node of the graph.
pub proof fn lemma_find_target_below(g: GraphView, name: Seq<char>)
    requires
        index_ok(g),
    ensures
        find_target_spec(g, name) matches Some(id) ==> id < g.nodes.len(),
{
    reveal(find_target_spec);
    lemma_hits_below(g.nodes, name, g.nodes.len() as int);
}

} // verus!
