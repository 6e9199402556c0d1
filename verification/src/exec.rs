//! What the executor decides and prints: the result of a build, colours,
//! times, the compilation database, the target list, and the order in
//! which dirty edges may run.
use vstd::prelude::*;

use crate::expand::join_with;
use crate::buildlog::BuildLog;
use crate::error::{build_error, KageError, Result};
use crate::files::{joined, StatCache};
use crate::graph::{
    consumers_ok, edges_ok, graph_wf, ids_below, no_dups, occ, outputs_from, producers_ok, EdgeId, Graph,
    GraphView,
};
use crate::plan::{dep, flags_of, indices_where, is_dep_chain, path_of, pending_of, wait_count, Plan, PlanView};
use crate::strutil::{
    decimal, decimal_string, digit, digit_char, push_char, push_str, sorted_unique, str_eq,
    strictly_sorted, views,
};

verus! {

/// What a run did.
#[derive(Debug, Clone, Copy)]
pub struct BuildResult {
    pub ran: usize,
    pub failed: usize,
    pub elapsed_ms: u128,
    pub nothing_to_do: bool,
}

// ---------------------------------------------------------------------------
// Colours
/// Whether output is coloured.
pub struct Palette {
    pub on: bool,
}

/// `s` between the escape that selects `code` and the one that resets.
pub open spec fn wrapped(on: bool, code: Seq<char>, s: Seq<char>) -> Seq<char> {
    if on {
        "\x1b["@ + code + "m"@ + s + "\x1b[0m"@
    } else {
        s
    }
}

impl Palette {
    /// Colours as forced (`Some`), or else as `auto` says: standard output is
    /// a terminal and `NO_COLOR` is unset.
    pub fn new(force: Option<bool>, auto: bool) -> (r: Self)
        ensures
            r.on == match force {
                Some(v) => v,
                None => auto,
            },
    {
        let on = match force {
            Some(v) => v,
            None => auto,
        };
        Palette { on }
    }

    pub fn wrap(&self, code: &str, s: &str) -> (r: String)
        ensures
            r@ == wrapped(self.on, code@, s@),
    {
        if self.on {
            let mut r = String::new();
            push_str(&mut r, "\x1b[");
            push_str(&mut r, code);
            push_str(&mut r, "m");
            push_str(&mut r, s);
            push_str(&mut r, "\x1b[0m");
            r
        } else {
            s.to_owned()
        }
    }

    pub fn dim(&self, s: &str) -> (r: String)
        ensures
            r@ == wrapped(self.on, "2"@, s@),
    {
        self.wrap("2", s)
    }

    pub fn bold(&self, s: &str) -> (r: String)
        ensures
            r@ == wrapped(self.on, "1"@, s@),
    {
        self.wrap("1", s)
    }

    pub fn red(&self, s: &str) -> (r: String)
        ensures
            r@ == wrapped(self.on, "31"@, s@),
    {
        self.wrap("31", s)
    }

    pub fn green(&self, s: &str) -> (r: String)
        ensures
            r@ == wrapped(self.on, "32"@, s@),
    {
        self.wrap("32", s)
    }

    pub fn cyan(&self, s: &str) -> (r: String)
        ensures
            r@ == wrapped(self.on, "36"@, s@),
    {
        self.wrap("36", s)
    }

    pub fn magenta(&self, s: &str) -> (r: String)
        ensures
            r@ == wrapped(self.on, "35"@, s@),
    {
        self.wrap("35", s)
    }
}

/// A job's label: magenta for `link`, cyan for the rest.
pub fn colorize_desc(pal: &Palette, instruction: &str, desc: &str) -> (r: String)
    ensures
        r@ == wrapped(
            pal.on,
            if instruction@ == "link"@ {
                "35"@
            } else {
                "36"@
            },
            desc@,
        ),
{
    if str_eq(instruction, "link") {
        pal.magenta(desc)
    } else {
        pal.cyan(desc)
    }
}

// ---------------------------------------------------------------------------
// Times
pub open spec fn three_digits(n: nat) -> Seq<char> {
    seq![digit_char((n / 100) % 10), digit_char((n / 10) % 10), digit_char(n % 10)]
}

/// Milliseconds below a second as `<ms>ms`, else seconds with three
/// decimals as `<s>.<mmm>s`.
pub open spec fn elapsed_text(ms: u128) -> Seq<char> {
    if ms < 1000 {
        decimal(ms as nat) + "ms"@
    } else {
        decimal((ms / 1000) as nat) + "."@ + three_digits((ms % 1000) as nat) + "s"@
    }
}

pub fn format_elapsed(ms: u128) -> (r: String)
    ensures
        r@ == elapsed_text(ms),
{
    if ms < 1000 {
        let mut r = decimal_string(ms);
        push_str(&mut r, "ms");
        r
    } else {
        let mut r = decimal_string(ms / 1000);
        push_str(&mut r, ".");
        let f = ms % 1000;
        push_char(&mut r, digit((f / 100) % 10));
        push_char(&mut r, digit((f / 10) % 10));
        push_char(&mut r, digit(f % 10));
        push_str(&mut r, "s");
        r
    }
}

// ---------------------------------------------------------------------------
// JSON
pub open spec fn hex_digit(d: nat) -> char {
    if d < 10 {
        digit_char(d)
    } else if d == 10 {
        'a'
    } else if d == 11 {
        'b'
    } else if d == 12 {
        'c'
    } else if d == 13 {
        'd'
    } else if d == 14 {
        'e'
    } else {
        'f'
    }
}

/// A control character (general category `Cc`).
pub open spec fn is_control(c: char) -> bool {
    c <= '\u{1f}' || ('\u{7f}' <= c && c <= '\u{9f}')
}

/// Four lower-case hex digits of `n`.
pub open spec fn hex4(n: nat) -> Seq<char> {
    seq![
        hex_digit((n / 4096) % 16),
        hex_digit((n / 256) % 16),
        hex_digit((n / 16) % 16),
        hex_digit(n % 16),
    ]
}

/// A character inside a JSON string.
pub open spec fn json_char(c: char) -> Seq<char> {
    if c == '"' {
        seq!['\\', '"']
    } else if c == '\\' {
        seq!['\\', '\\']
    } else if c == '\n' {
        seq!['\\', 'n']
    } else if c == '\r' {
        seq!['\\', 'r']
    } else if c == '\t' {
        seq!['\\', 't']
    } else if is_control(c) {
        seq!['\\', 'u'] + hex4((c as u32) as nat)
    } else {
        seq![c]
    }
}

pub open spec fn json_escaped(s: Seq<char>) -> Seq<char>
    decreases s.len(),
{
    if s.len() == 0 {
        seq![]
    } else {
        json_escaped(s.drop_last()) + json_char(s.last())
    }
}

pub(crate) fn hex_char(d: u32) -> (c: char)
    requires
        d < 16,
    ensures
        c == hex_digit(d as nat),
{
    if d < 10 {
        digit(d as u128)
    } else if d == 10 {
        'a'
    } else if d == 11 {
        'b'
    } else if d == 12 {
        'c'
    } else if d == 13 {
        'd'
    } else if d == 14 {
        'e'
    } else {
        'f'
    }
}

/// Escapes a text for a JSON string.
pub fn json_escape(s: &str) -> (r: String)
    ensures
        r@ == json_escaped(s@),
{
    let cs = crate::strutil::chars_of(s);
    let mut out = String::new();
    let mut i: usize = 0;
    while i < cs.len()
        invariant
            i <= cs@.len(),
            cs@ == s@,
            out@ == json_escaped(cs@.take(i as int)),
        decreases cs@.len() - i,
    {
        let c = cs[i];
        let ghost o = out@;
        assert(cs@.take(i + 1).drop_last() == cs@.take(i as int));
        if c == '"' {
            push_str(&mut out, "\\\"");
            proof {
                reveal_strlit("\\\"");
            }
        } else if c == '\\' {
            push_str(&mut out, "\\\\");
            proof {
                reveal_strlit("\\\\");
            }
        } else if c == '\n' {
            push_str(&mut out, "\\n");
            proof {
                reveal_strlit("\\n");
            }
        } else if c == '\r' {
            push_str(&mut out, "\\r");
            proof {
                reveal_strlit("\\r");
            }
        } else if c == '\t' {
            push_str(&mut out, "\\t");
            proof {
                reveal_strlit("\\t");
            }
        } else if c <= '\u{1f}' || ('\u{7f}' <= c && c <= '\u{9f}') {
            let x = c as u32;
            push_char(&mut out, '\\');
            push_char(&mut out, 'u');
            push_char(&mut out, hex_char((x / 4096) % 16));
            push_char(&mut out, hex_char((x / 256) % 16));
            push_char(&mut out, hex_char((x / 16) % 16));
            push_char(&mut out, hex_char(x % 16));
        } else {
            push_char(&mut out, c);
        }
        assert(out@ =~= o + json_char(c));
        i = i + 1;
    }
    assert(cs@.take(cs@.len() as int) == cs@);
    out
}


// ---------------------------------------------------------------------------
// Listings
/// The database entry of edge `e`: its first input and first output.
pub open spec fn compdb_entry(g: GraphView, e: int) -> Seq<char> {
    let edge = g.edges[e];
    let file = if edge.ins.len() > 0 {
        path_of(g, edge.ins[0])
    } else {
        seq![]
    };
    let output = if edge.outs.len() > 0 {
        path_of(g, edge.outs[0])
    } else {
        seq![]
    };
    "  {\"directory\": \""@ + json_escaped(g.workdir) + "\", \"command\": \""@ + json_escaped(
        edge.command,
    ) + "\", \"file\": \""@ + json_escaped(file) + "\", \"output\": \""@ + json_escaped(output)
        + "\"}"@
}

/// The entries of the edges below `n` that are not `link` edges.
pub open spec fn compdb_entries(g: GraphView, n: int) -> Seq<Seq<char>>
    decreases n,
{
    if n <= 0 {
        seq![]
    } else if g.edges[n - 1].instruction == "link"@ {
        compdb_entries(g, n - 1)
    } else {
        compdb_entries(g, n - 1).push(compdb_entry(g, n - 1))
    }
}

/// The compilation database: a JSON array of the entries, one per line.
pub open spec fn compdb_text(g: GraphView) -> Seq<char> {
    "[\n"@ + join_with(compdb_entries(g, g.edges.len() as int), ",\n"@) + "\n]\n"@
}

impl Graph {
    fn compdb_entry(&self, e: usize, dir: &str) -> (r: String)
        requires
            edges_ok(self@),
            e < self@.edges.len(),
            dir@ == json_escaped(self@.workdir),
        ensures
            r@ == compdb_entry(self@, e as int),
    {
        let edge = &self.edges[e];
        assert(self@.edges[e as int] == edge@);
        let file = if edge.ins.len() > 0 {
            let i = edge.ins[0];
            assert(self@.nodes[i as int] == self.nodes@[i as int]@);
            json_escape(self.nodes[i].path.as_str())
        } else {
            json_escape("")
        };
        let output = if edge.outs.len() > 0 {
            let o = edge.outs[0];
            assert(self@.nodes[o as int] == self.nodes@[o as int]@);
            json_escape(self.nodes[o].path.as_str())
        } else {
            json_escape("")
        };
        proof {
            reveal_strlit("");
        }
        let cmd = json_escape(edge.command.as_str());
        let mut r = String::new();
        push_str(&mut r, "  {\"directory\": \"");
        push_str(&mut r, dir);
        push_str(&mut r, "\", \"command\": \"");
        push_str(&mut r, cmd.as_str());
        push_str(&mut r, "\", \"file\": \"");
        push_str(&mut r, file.as_str());
        push_str(&mut r, "\", \"output\": \"");
        push_str(&mut r, output.as_str());
        push_str(&mut r, "\"}");
        r
    }

    /// The text that `--compdb` prints.
    pub fn compdb(&self) -> (r: String)
        requires
            edges_ok(self@),
        ensures
            r@ == compdb_text(self@),
    {
        let dir = json_escape(self.workdir.as_str());
        let mut body = String::new();
        let mut first = true;
        let mut e: usize = 0;
        while e < self.edges.len()
            invariant
                e <= self.edges@.len(),
                edges_ok(self@),
                dir@ == json_escaped(self@.workdir),
                body@ == join_with(compdb_entries(self@, e as int), ",\n"@),
                first == (compdb_entries(self@, e as int).len() == 0),
            decreases self.edges@.len() - e,
        {
            let edge = &self.edges[e];
            assert(self@.edges[e as int] == edge@);
            if !str_eq(edge.instruction.as_str(), "link") {
                let entry = self.compdb_entry(e, dir.as_str());
                let ghost prev = compdb_entries(self@, e as int);
                if !first {
                    push_str(&mut body, ",\n");
                }
                push_str(&mut body, entry.as_str());
                assert(compdb_entries(self@, e + 1) == prev.push(entry@));
                assert(prev.push(entry@).drop_last() =~= prev);
                first = false;
            }
            e = e + 1;
        }
        let mut r = String::new();
        push_str(&mut r, "[\n");
        push_str(&mut r, body.as_str());
        push_str(&mut r, "\n]\n");
        r
    }

    /// The produced paths, sorted, each once (what `--list-targets` prints,
    /// one per line).
    pub fn target_list(&self) -> (r: Vec<String>)
        requires
            edges_ok(self@),
        ensures
            strictly_sorted(views(r@)),
            views(r@).to_set() == outputs_from(self@, 0).to_set(),
    {
        sorted_unique(self.outputs())
    }

    /// The files that `--clean` removes: each output and then each
    /// depfile, joined to the working directory.
    pub fn clean_paths(&self) -> (r: (Vec<String>, Vec<String>))
        requires
            edges_ok(self@),
        ensures
            views(r.0@) == outputs_from(self@, 0).map_values(|p: Seq<char>| joined(self@.workdir, p)),
            views(r.1@) == depfiles_from(self@, 0).map_values(|p: Seq<char>| joined(self@.workdir, p)),
    {
        let outs = self.outputs();
        let mut a: Vec<String> = Vec::new();
        let mut k: usize = 0;
        let ghost os = views(outs@);
        while k < outs.len()
            invariant
                k <= outs@.len(),
                os == views(outs@),
                views(a@) == os.take(k as int).map_values(|p: Seq<char>| joined(self@.workdir, p)),
            decreases outs@.len() - k,
        {
            let j = crate::files::join_path(self.workdir.as_str(), outs[k].as_str());
            let ghost before = views(a@);
            assert(os[k as int] == outs@[k as int]@);
            a.push(j);
            assert(views(a@) =~= before.push(joined(self@.workdir, os[k as int])));
            assert(os.take(k + 1) =~= os.take(k as int).push(os[k as int]));
            assert(views(a@) =~= os.take(k + 1).map_values(|p: Seq<char>| joined(self@.workdir, p)));
            k = k + 1;
        }
        assert(os.take(os.len() as int) =~= os);
        let mut b: Vec<String> = Vec::new();
        let mut e: usize = 0;
        while e < self.edges.len()
            invariant
                e <= self.edges@.len(),
                views(b@) + depfiles_from(self@, e as int).map_values(|p: Seq<char>| joined(self@.workdir, p))
                    == depfiles_from(self@, 0).map_values(|p: Seq<char>| joined(self@.workdir, p)),
            decreases self.edges@.len() - e,
        {
            let edge = &self.edges[e];
            assert(self@.edges[e as int] == edge@);
            let ghost before = views(b@);
            if let Some(df) = &edge.depfile {
                let j = crate::files::join_path(self.workdir.as_str(), df.as_str());
                b.push(j);
                assert(views(b@) =~= before.push(joined(self@.workdir, df@)));
            }
            assert(depfiles_from(self@, e as int).map_values(|p: Seq<char>| joined(self@.workdir, p))
                =~= (match edge@.depfile {
                Some(d) => seq![joined(self@.workdir, d)],
                None => seq![],
            }) + depfiles_from(self@, e + 1).map_values(|p: Seq<char>| joined(self@.workdir, p)));
            e = e + 1;
        }
        assert(views(b@) =~= depfiles_from(self@, 0).map_values(|p: Seq<char>| joined(self@.workdir, p)));
        (a, b)
    }
}

/// The depfiles of the edges `e..`, in order.
pub open spec fn depfiles_from(g: GraphView, e: int) -> Seq<Seq<char>>
    decreases g.edges.len() - e,
{
    if e < 0 || e >= g.edges.len() {
        seq![]
    } else {
        (match g.edges[e].depfile {
            Some(d) => seq![d],
            None => seq![],
        }) + depfiles_from(g, e + 1)
    }
}


// ---------------------------------------------------------------------------
// Running the plan
/// How many of `ids` a dirty edge that is not done yet produces.
pub open spec fn open_of(g: GraphView, ids: Seq<usize>, d: Seq<bool>, done: Set<usize>) -> nat
    decreases ids.len(),
{
    if ids.len() == 0 {
        0
    } else {
        open_of(g, ids.drop_last(), d, done) + match g.nodes[ids.last() as int].producer {
            Some(p) => if d[p as int] && !done.contains(p) {
                1nat
            } else {
                0nat
            },
            None => 0nat,
        }
    }
}

/// How many dirty producers that are not done yet edge `e` still waits for.
pub open spec fn open_count(g: GraphView, e: int, d: Seq<bool>, done: Set<usize>) -> nat {
    open_of(g, g.edges[e].ins, d, done) + open_of(g, g.edges[e].order_only_ins, d, done)
}

/// How many of `ids` edge `c` produces.
pub open spec fn made_by(g: GraphView, ids: Seq<usize>, c: usize) -> nat
    decreases ids.len(),
{
    if ids.len() == 0 {
        0
    } else {
        made_by(g, ids.drop_last(), c) + if g.nodes[ids.last() as int].producer == Some(c) {
            1nat
        } else {
            0nat
        }
    }
}

/// How often `e` is a consumer of the nodes `outs`.
pub open spec fn consumer_hits(g: GraphView, outs: Seq<usize>, e: usize) -> nat
    decreases outs.len(),
{
    if outs.len() == 0 {
        0
    } else {
        consumer_hits(g, outs.drop_last(), e) + occ(g.nodes[outs.last() as int].consumers, e)
    }
}

/// How often the nodes `outs` occur in `ids`.
pub open spec fn occ_sum(outs: Seq<usize>, ids: Seq<usize>) -> nat
    decreases outs.len(),
{
    if outs.len() == 0 {
        0
    } else {
        occ_sum(outs.drop_last(), ids) + occ(ids, outs.last())
    }
}

/// The counts of a plan: the dirty list names the dirty edges in order;
/// a dirty edge waits for its dirty producers; the ready ones wait for
/// none.
pub open spec fn plan_counts_ok(g: GraphView, p: PlanView) -> bool {
    let n = g.edges.len();
    let d = flags_of(p.dirty, n);
    &&& p.dirty == indices_where(d, n as int)
    &&& p.wait.len() == n
    &&& forall|e: int| 0 <= e < n ==> #[trigger] p.wait[e] == if d[e] {
        wait_count(g, e, d)
    } else {
        0
    }
    &&& p.ready == indices_where(Seq::new(n, |e: int| d[e] && p.wait[e] == 0), n as int)
}

/// Hands out the dirty edges of a plan once what they wait for is done.
pub struct Scheduler {
    ready: Vec<EdgeId>,
    head: usize,
    wait: Vec<usize>,
    dirty: Vec<bool>,
    done: Ghost<Set<usize>>,
}

impl Scheduler {
    /// The dirty edges.
    pub closed spec fn dirty_flags(&self) -> Seq<bool> {
        self.dirty@
    }

    /// The edges reported done.
    pub closed spec fn done_set(&self) -> Set<usize> {
        self.done@
    }

    /// The edges handed out so far, in order.
    pub closed spec fn handed_out(&self) -> Seq<usize> {
        self.ready@.take(self.head as int)
    }

    /// The edges that may be handed out next, in order.
    pub closed spec fn queued(&self) -> Seq<usize> {
        self.ready@.skip(self.head as int)
    }

    /// Each dirty edge waits for as many producers as are dirty and not
    /// done; the ready list holds, once each, the dirty edges that wait for
    /// none; only handed-out edges are done.
    pub closed spec fn inv(&self, g: GraphView) -> bool {
        &&& self.dirty@.len() == g.edges.len()
        &&& self.wait@.len() == g.edges.len()
        &&& self.head <= self.ready@.len()
        &&& no_dups(self.ready@)
        &&& forall|e: int|
            0 <= e < g.edges.len() && #[trigger] self.dirty@[e] ==> self.wait@[e] == open_count(
                g,
                e,
                self.dirty@,
                self.done@,
            )
        &&& forall|e: int|
            0 <= e < g.edges.len() ==> (self.ready@.contains(e as usize) <==> #[trigger] self.dirty@[e]
                && self.wait@[e] == 0)
        &&& ids_below(self.ready@, g.edges.len() as int)
        &&& forall|c: usize| #[trigger] self.done@.contains(c) ==> self.ready@.take(self.head as int).contains(c)
    }

    /// A scheduler for a plan: nothing done, the plan's ready edges queued.
    pub fn new(graph: &Graph, plan: &Plan) -> (r: Self)
        requires
            graph_wf(graph@),
            plan_counts_ok(graph@, plan@),
        ensures
            r.inv(graph@),
            r.done_set().is_empty(),
            r.handed_out().len() == 0,
            r.queued() == plan@.ready,
            r.dirty_flags() == flags_of(plan@.dirty, graph@.edges.len()),
    {
        let n = graph.edges.len();
        let ghost d = flags_of(plan@.dirty, n as nat);
        let mut dirty: Vec<bool> = vec![false; n];
        let mut k: usize = 0;
        while k < plan.dirty.len()
            invariant
                n == graph@.edges.len(),
                n <= usize::MAX,
                plan@.dirty == indices_where(d, n as int),
                d == flags_of(plan@.dirty, n as nat),
                k <= plan.dirty@.len(),
                dirty@.len() == n,
                forall|e: int| 0 <= e < n ==> #[trigger] dirty@[e] == plan.dirty@.take(k as int).contains(e as usize),
            decreases plan.dirty@.len() - k,
        {
            let e = plan.dirty[k];
            proof {
                crate::plan::lemma_indices_where(d, n as int, e as int);
                assert(plan.dirty@.contains(e));
            }
            dirty.set(e, true);
            assert forall|x: int| 0 <= x < n implies #[trigger] dirty@[x] == plan.dirty@.take(k + 1).contains(x as usize) by {
                assert(plan.dirty@.take(k + 1) =~= plan.dirty@.take(k as int).push(e));
                vstd::seq_lib::lemma_seq_contains_after_push(plan.dirty@.take(k as int), e, x as usize);
            }
            k = k + 1;
        }
        assert(plan.dirty@.take(plan.dirty@.len() as int) =~= plan.dirty@);
        assert(dirty@ =~= d);
        let mut ready: Vec<EdgeId> = Vec::new();
        let mut k: usize = 0;
        while k < plan.ready.len()
            invariant
                k <= plan.ready@.len(),
                ready@ == plan.ready@.take(k as int),
            decreases plan.ready@.len() - k,
        {
            ready.push(plan.ready[k]);
            k = k + 1;
            assert(ready@ =~= plan.ready@.take(k as int));
        }
        assert(plan.ready@.take(plan.ready@.len() as int) =~= plan.ready@);
        let mut wait: Vec<usize> = Vec::new();
        let mut k: usize = 0;
        while k < plan.wait.len()
            invariant
                k <= plan.wait@.len(),
                wait@ == plan.wait@.take(k as int),
            decreases plan.wait@.len() - k,
        {
            wait.push(plan.wait[k]);
            k = k + 1;
            assert(wait@ =~= plan.wait@.take(k as int));
        }
        assert(plan.wait@.take(plan.wait@.len() as int) =~= plan.wait@);
        let r = Scheduler { ready, head: 0, wait, dirty, done: Ghost(Set::empty()) };
        proof {
            lemma_new_inv(graph@, plan@, r.ready@, r.wait@, r.dirty@);
            assert(r.ready@.skip(0) =~= r.ready@);
        }
        r
    }

    proof fn lemma_inv_at(&self, g: GraphView, e: int)
        requires
            self.inv(g),
            0 <= e < g.edges.len(),
            self.ready@.contains(e as usize),
        ensures
            self.dirty@[e],
            open_count(g, e, self.dirty@, self.done@) == 0,
    {
        assert(self.dirty@[e] && self.wait@[e] == 0);
    }

    /// The next edge that may run: every dirty edge whose outputs it reads
    /// is done.
    #[verifier::spinoff_prover]
    pub fn next(&mut self, graph: &Graph) -> (r: Option<EdgeId>)
        requires
            old(self).inv(graph@),
        ensures
            final(self).inv(graph@),
            r matches Some(e) ==> may_run(graph@, e as int, final(self).dirty_flags(), final(self).done_set()),
            final(self).done_set() == old(self).done_set(),
            final(self).dirty_flags() == old(self).dirty_flags(),
            match r {
                None => old(self).queued().len() == 0 && final(self).handed_out() == old(self).handed_out(),
                Some(e) => old(self).queued().len() > 0 && e == old(self).queued()[0]
                    && final(self).handed_out() == old(self).handed_out().push(e),
            },
            final(self).queued() == if old(self).queued().len() > 0 {
                old(self).queued().drop_first()
            } else {
                old(self).queued()
            },
    {
        if self.head < self.ready.len() {
            let e = self.ready[self.head];
            proof {
                assert(self.ready@.contains(e));
                assert(self.ready@[self.head as int] < graph@.edges.len());
                self.lemma_inv_at(graph@, e as int);
                lemma_open_zero(graph@, e as int, self.dirty@, self.done@);
            }
            self.head = self.head + 1;
            assert forall|c: usize| #[trigger] self.done@.contains(c) implies self.ready@.take(self.head as int).contains(c) by {
                assert(old(self).ready@.take(old(self).head as int).contains(c));
                let i = choose|i: int| 0 <= i < old(self).head && old(self).ready@.take(old(self).head as int)[i] == c;
                assert(self.ready@.take(self.head as int)[i] == c);
            }
            assert(self.ready@.take(self.head as int) =~= old(self).ready@.take(old(self).head as int).push(e));
            assert(self.ready@.skip(self.head as int) =~= old(self).ready@.skip(old(self).head as int).drop_first());
            Some(e)
        } else {
            None
        }
    }
}

impl Scheduler {
    /// No edge is handed out twice, and only dirty edges are handed out.
    pub proof fn lemma_handed_out_once(&self, g: GraphView)
        requires
            self.inv(g),
        ensures
            no_dups(self.handed_out()),
            forall|i: int|
                0 <= i < self.handed_out().len() ==> (#[trigger] self.handed_out()[i]) < g.edges.len()
                    && self.dirty_flags()[self.handed_out()[i] as int],
    {
        assert forall|i: int| 0 <= i < self.handed_out().len() implies (#[trigger] self.handed_out()[i]) < g.edges.len()
            && self.dirty_flags()[self.handed_out()[i] as int] by {
            let e = self.ready@[i];
            assert(self.handed_out()[i] == e);
            assert(self.ready@.contains(e));
            self.lemma_inv_at(g, e as int);
        }
    }
}

/// A plan that planning returns is one a scheduler can start from.
pub proof fn lemma_plan_schedulable(g: GraphView, c: crate::plan::PlanCtx, p: PlanView)
    requires
        crate::plan::plan_ok(g, c, p),
    ensures
        plan_counts_ok(g, p),
{
}

/// A chain of dirty edges, each needing the next, that comes back to where
/// it started.
pub open spec fn dirty_cycle(g: GraphView, d: Seq<bool>, chain: Seq<usize>) -> bool {
    &&& is_dep_chain(g, chain)
    &&& chain.len() >= 2
    &&& chain[0] == chain.last()
    &&& forall|i: int| 0 <= i < chain.len() ==> d[#[trigger] chain[i] as int]
}

/// Node `n` is made by a dirty edge that is not done.
pub open spec fn open_producer(g: GraphView, n: usize, d: Seq<bool>, done: Set<usize>) -> bool {
    g.nodes[n as int].producer matches Some(p) && d[p as int] && !done.contains(p)
}

proof fn lemma_open_of_pos(g: GraphView, ids: Seq<usize>, d: Seq<bool>, done: Set<usize>)
    requires
        open_of(g, ids, d, done) > 0,
    ensures
        exists|k: int| 0 <= k < ids.len() && #[trigger] open_producer(g, ids[k], d, done),
    decreases ids.len(),
{
    let k = ids.len() - 1;
    if open_of(g, ids.drop_last(), d, done) > 0 {
        lemma_open_of_pos(g, ids.drop_last(), d, done);
        let j = choose|j: int| 0 <= j < ids.drop_last().len() && #[trigger] open_producer(g, ids.drop_last()[j], d, done);
        assert(ids[j] == ids.drop_last()[j]);
    } else {
        assert(open_producer(g, ids[k], d, done));
    }
}

/// More than `n` numbers below `n` hold one twice.
proof fn lemma_pigeonhole(s: Seq<usize>, n: nat)
    requires
        s.len() > n,
        forall|i: int| 0 <= i < s.len() ==> (#[trigger] s[i]) < n,
    ensures
        exists|i: int, j: int| 0 <= i < j < s.len() && s[i] == s[j],
{
    let t = s.map_values(|x: usize| x as int);
    if t.no_duplicates() {
        t.unique_seq_to_set();
        vstd::set_lib::lemma_int_range(0, n as int);
        assert(t.to_set().subset_of(vstd::set_lib::set_int_range(0, n as int))) by {
            assert forall|x: int| t.to_set().contains(x) implies vstd::set_lib::set_int_range(0, n as int).contains(x) by {
                let i = choose|i: int| 0 <= i < t.len() && t[i] == x;
                assert(s[i] < n);
            }
        }
        vstd::set_lib::lemma_len_subset(t.to_set(), vstd::set_lib::set_int_range(0, n as int));
        assert(false);
    } else {
        let (i, j) = choose|i: int, j: int| 0 <= i < t.len() && 0 <= j < t.len() && i != j && t[i] == t[j];
        if i < j {
            assert(s[i] == s[j]);
        } else {
            assert(s[j] == s[i]);
        }
    }
}

/// A chain of dirty edges that meets itself again holds a dirty cycle.
proof fn lemma_repeat_cycle(g: GraphView, d: Seq<bool>, chain: Seq<usize>, i: int, j: int)
    requires
        is_dep_chain(g, chain),
        forall|x: int| 0 <= x < chain.len() ==> d[#[trigger] chain[x] as int],
        0 <= i < j < chain.len(),
        chain[i] == chain[j],
    ensures
        dirty_cycle(g, d, chain.subrange(i, j + 1)),
{
    let cyc = chain.subrange(i, j + 1);
    assert forall|x: int| 0 <= x < cyc.len() - 1 implies #[trigger] dep(g, cyc[x], cyc[x + 1]) by {
        assert(cyc[x] == chain[i + x]);
        assert(cyc[x + 1] == chain[i + x + 1]);
        assert(dep(g, chain[i + x], chain[(i + x) + 1]));
    }
    assert forall|x: int| 0 <= x < cyc.len() implies (#[trigger] cyc[x]) < g.edges.len() by {
        assert(cyc[x] == chain[i + x]);
    }
    assert forall|x: int| 0 <= x < cyc.len() implies d[#[trigger] cyc[x] as int] by {
        assert(cyc[x] == chain[i + x]);
    }
}

impl Scheduler {
    /// An edge that is dirty, not done and not queued while the queue is
    /// empty waits for a dirty edge that is not done.
    proof fn lemma_waiting(&self, g: GraphView, e: int) -> (p: usize)
        requires
            graph_wf(g),
            self.inv(g),
            self.queued().len() == 0,
            forall|c: usize| #[trigger] self.handed_out().contains(c) ==> self.done_set().contains(c),
            0 <= e < g.edges.len(),
            self.dirty@[e],
            !self.done@.contains(e as usize),
        ensures
            dep(g, e as usize, p),
            p < g.edges.len(),
            self.dirty@[p as int],
            !self.done@.contains(p),
    {
        assert(self.head == self.ready@.len());
        assert(self.ready@.take(self.head as int) =~= self.ready@);
        if self.ready@.contains(e as usize) {
            assert(self.handed_out() == self.ready@);
            assert(self.handed_out().contains(e as usize));
            assert(false);
        }
        assert(self.wait@[e] > 0);
        assert(open_count(g, e, self.dirty@, self.done@) > 0);
        let n: usize;
        if open_of(g, g.edges[e].ins, self.dirty@, self.done@) > 0 {
            lemma_open_of_pos(g, g.edges[e].ins, self.dirty@, self.done@);
            let k = choose|k: int|
                0 <= k < g.edges[e].ins.len() && #[trigger] open_producer(g, g.edges[e].ins[k], self.dirty@, self.done@);
            n = g.edges[e].ins[k];
            assert(g.edges[e].ins.contains(n));
        } else {
            lemma_open_of_pos(g, g.edges[e].order_only_ins, self.dirty@, self.done@);
            let k = choose|k: int|
                0 <= k < g.edges[e].order_only_ins.len() && #[trigger] open_producer(
                    g,
                    g.edges[e].order_only_ins[k],
                    self.dirty@,
                    self.done@,
                );
            n = g.edges[e].order_only_ins[k];
            assert(g.edges[e].order_only_ins.contains(n));
        }
        let p = g.nodes[n as int].producer->0;
        assert(n < g.nodes.len()) by {
            assert(edges_ok(g));
            if g.edges[e].ins.contains(n) {
                let j = choose|j: int| 0 <= j < g.edges[e].ins.len() && g.edges[e].ins[j] == n;
                assert(g.edges[e].ins[j] < g.nodes.len());
            } else {
                let j = choose|j: int| 0 <= j < g.edges[e].order_only_ins.len() && g.edges[e].order_only_ins[j] == n;
                assert(g.edges[e].order_only_ins[j] < g.nodes.len());
            }
        }
        assert(p < g.edges.len()) by {
            assert(producers_ok(g));
        }
        assert(dep(g, e as usize, p));
        p
    }

    /// A chain of `k + 1` dirty edges that are not done, from `e` on.
    #[verifier::spinoff_prover]
    #[verifier::rlimit(50)]
    proof fn lemma_open_chain(&self, g: GraphView, e: usize, k: nat) -> (chain: Seq<usize>)
        requires
            graph_wf(g),
            self.inv(g),
            self.queued().len() == 0,
            forall|c: usize| #[trigger] self.handed_out().contains(c) ==> self.done_set().contains(c),
            e < g.edges.len(),
            self.dirty@[e as int],
            !self.done@.contains(e),
        ensures
            chain.len() == k + 1,
            chain[0] == e,
            is_dep_chain(g, chain),
            forall|i: int| 0 <= i < chain.len() ==> self.dirty@[#[trigger] chain[i] as int],
        decreases k,
    {
        if k == 0 {
            seq![e]
        } else {
            let p = self.lemma_waiting(g, e as int);
            let rest = self.lemma_open_chain(g, p, (k - 1) as nat);
            let chain = seq![e] + rest;
            assert forall|i: int| 0 <= i < chain.len() - 1 implies #[trigger] dep(g, chain[i], chain[i + 1]) by {
                if i > 0 {
                    assert(chain[i] == rest[i - 1]);
                    assert(chain[i + 1] == rest[i]);
                    assert(dep(g, rest[i - 1], rest[(i - 1) + 1]));
                }
            }
            assert forall|i: int| 0 <= i < chain.len() implies (#[trigger] chain[i]) < g.edges.len() by {
                if i > 0 {
                    assert(chain[i] == rest[i - 1]);
                }
            }
            assert forall|i: int| 0 <= i < chain.len() implies self.dirty@[#[trigger] chain[i] as int] by {
                if i > 0 {
                    assert(chain[i] == rest[i - 1]);
                }
            }
            chain
        }
    }

    proof fn lemma_dirty_done_at(&self, g: GraphView, e: int)
        requires
            graph_wf(g),
            self.inv(g),
            self.queued().len() == 0,
            forall|c: usize| #[trigger] self.handed_out().contains(c) ==> self.done_set().contains(c),
            forall|chain: Seq<usize>| !#[trigger] dirty_cycle(g, self.dirty_flags(), chain),
            0 <= e < g.edges.len(),
            self.dirty@[e],
        ensures
            self.done@.contains(e as usize),
    {
        if !self.done@.contains(e as usize) {
            let n = g.edges.len();
            let chain = self.lemma_open_chain(g, e as usize, n);
            assert forall|i: int| 0 <= i < chain.len() implies (#[trigger] chain[i]) < n by {
                assert(ids_below(chain, n as int));
            }
            lemma_pigeonhole(chain, n);
            let (i, j) = choose|i: int, j: int| 0 <= i < j < chain.len() && chain[i] == chain[j];
            lemma_repeat_cycle(g, self.dirty@, chain, i, j);
            let cyc = chain.subrange(i, j + 1);
            assert(dirty_cycle(g, self.dirty_flags(), cyc));
        }
    }

    /// Every dirty edge runs: once nothing is queued and every edge handed
    /// out is done, every dirty edge is done, unless dirty edges need each
    /// other in a cycle.
    pub proof fn lemma_all_dirty_done(&self, g: GraphView)
        requires
            graph_wf(g),
            self.inv(g),
            self.queued().len() == 0,
            forall|c: usize| #[trigger] self.handed_out().contains(c) ==> self.done_set().contains(c),
            forall|chain: Seq<usize>| !#[trigger] dirty_cycle(g, self.dirty_flags(), chain),
        ensures
            forall|e: int| 0 <= e < g.edges.len() && #[trigger] self.dirty_flags()[e] ==> self.done_set().contains(
                e as usize,
            ),
    {
        assert forall|e: int| 0 <= e < g.edges.len() && #[trigger] self.dirty_flags()[e] implies self.done_set().contains(
            e as usize,
        ) by {
            self.lemma_dirty_done_at(g, e);
        }
    }
}

impl Scheduler {
    /// The order of a run: every edge handed out so far is dirty, was
    /// handed out once, and every dirty edge that makes one of its inputs or
    /// order-only inputs is done (done edges stay done).
    pub proof fn lemma_run_order(&self, g: GraphView)
        requires
            self.inv(g),
        ensures
            no_dups(self.handed_out()),
            forall|i: int|
                0 <= i < self.handed_out().len() ==> may_run(
                    g,
                    #[trigger] self.handed_out()[i] as int,
                    self.dirty_flags(),
                    self.done_set(),
                ),
    {
        assert forall|i: int| 0 <= i < self.handed_out().len() implies may_run(
            g,
            #[trigger] self.handed_out()[i] as int,
            self.dirty_flags(),
            self.done_set(),
        ) by {
            let e = self.ready@[i];
            assert(self.handed_out()[i] == e);
            assert(self.ready@.contains(e));
            self.lemma_inv_at(g, e as int);
            lemma_open_zero(g, e as int, self.dirty@, self.done@);
        }
    }
}

impl Scheduler {
    /// A drained run: once nothing is queued, every dirty edge whose dirty
    /// producers are all done has been handed out.
    pub proof fn lemma_drained(&self, g: GraphView)
        requires
            self.inv(g),
            self.queued().len() == 0,
        ensures
            forall|e: int|
                0 <= e < g.edges.len() && #[trigger] self.dirty_flags()[e] && open_count(
                    g,
                    e,
                    self.dirty_flags(),
                    self.done_set(),
                ) == 0 ==> self.handed_out().contains(e as usize),
    {
        assert(self.ready@.take(self.head as int) =~= self.ready@);
        assert forall|e: int|
            0 <= e < g.edges.len() && #[trigger] self.dirty_flags()[e] && open_count(
                g,
                e,
                self.dirty_flags(),
                self.done_set(),
            ) == 0 implies self.handed_out().contains(e as usize) by {
            assert(self.dirty@[e] && self.wait@[e] == 0);
        }
    }
}

/// A plan made without a reachable cycle has no dirty edges that need each
/// other in a cycle.
pub proof fn lemma_plan_acyclic(g: GraphView, c: crate::plan::PlanCtx, p: PlanView, chain: Seq<usize>)
    requires
        graph_wf(g),
        crate::plan::plan_ok(g, c, p),
        !crate::plan::has_reachable_cycle(g, c.targets),
    ensures
        !dirty_cycle(g, flags_of(p.dirty, g.edges.len()), chain),
{
    if dirty_cycle(g, flags_of(p.dirty, g.edges.len()), chain) {
        let d = flags_of(p.dirty, g.edges.len());
        assert(d[chain[0] as int]);
        assert(chain[0] < g.edges.len());
        crate::plan::lemma_dep_cycle(g, c.targets, chain);
    }
}

/// Edge `e` is dirty and every dirty edge that produces one of its inputs
/// or order-only inputs is done.
pub open spec fn may_run(g: GraphView, e: int, d: Seq<bool>, done: Set<usize>) -> bool {
    &&& d[e]
    &&& forall|n: usize|
        (g.edges[e].ins.contains(n) || g.edges[e].order_only_ins.contains(n)) && #[trigger] g.nodes[n as int].producer
            is Some && d[g.nodes[n as int].producer->0 as int] ==> done.contains(g.nodes[n as int].producer->0)
}

pub proof fn lemma_open_zero_of(g: GraphView, ids: Seq<usize>, d: Seq<bool>, done: Set<usize>)
    requires
        open_of(g, ids, d, done) == 0,
    ensures
        forall|j: int|
            0 <= j < ids.len() && (#[trigger] g.nodes[ids[j] as int]).producer is Some && d[g.nodes[ids[j] as int].producer->0 as int]
                ==> done.contains(g.nodes[ids[j] as int].producer->0),
    decreases ids.len(),
{
    if ids.len() > 0 {
        lemma_open_zero_of(g, ids.drop_last(), d, done);
        assert forall|j: int|
            0 <= j < ids.len() && (#[trigger] g.nodes[ids[j] as int]).producer is Some && d[g.nodes[ids[j] as int].producer->0 as int]
                implies done.contains(g.nodes[ids[j] as int].producer->0) by {
            if j < ids.len() - 1 {
                assert(ids.drop_last()[j] == ids[j]);
            }
        }
    }
}

/// An edge that waits for nothing may run.
pub proof fn lemma_open_zero(g: GraphView, e: int, d: Seq<bool>, done: Set<usize>)
    requires
        d[e],
        open_count(g, e, d, done) == 0,
    ensures
        may_run(g, e, d, done),
{
    lemma_open_zero_of(g, g.edges[e].ins, d, done);
    lemma_open_zero_of(g, g.edges[e].order_only_ins, d, done);
    assert forall|n: usize|
        (g.edges[e].ins.contains(n) || g.edges[e].order_only_ins.contains(n)) && #[trigger] g.nodes[n as int].producer
            is Some && d[g.nodes[n as int].producer->0 as int] implies done.contains(g.nodes[n as int].producer->0) by {
        if g.edges[e].ins.contains(n) {
            let j = choose|j: int| 0 <= j < g.edges[e].ins.len() && g.edges[e].ins[j] == n;
            assert(g.nodes[g.edges[e].ins[j] as int] == g.nodes[n as int]);
        } else {
            let j = choose|j: int| 0 <= j < g.edges[e].order_only_ins.len() && g.edges[e].order_only_ins[j] == n;
            assert(g.nodes[g.edges[e].order_only_ins[j] as int] == g.nodes[n as int]);
        }
    }
}

pub proof fn lemma_open_empty(g: GraphView, ids: Seq<usize>, d: Seq<bool>)
    ensures
        open_of(g, ids, d, Set::empty()) == pending_of(g, ids, d),
    decreases ids.len(),
{
    if ids.len() > 0 {
        lemma_open_empty(g, ids.drop_last(), d);
    }
}

pub proof fn lemma_indices_increasing(flags: Seq<bool>, n: int)
    requires
        0 <= n <= flags.len(),
        n <= usize::MAX + 1,
    ensures
        forall|i: int, j: int|
            0 <= i < j < indices_where(flags, n).len() ==> indices_where(flags, n)[i] < indices_where(flags, n)[j],
    decreases n,
{
    if n > 0 {
        lemma_indices_increasing(flags, n - 1);
        crate::plan::lemma_indices_where(flags, n - 1, 0);
    }
}

pub proof fn lemma_new_inv(g: GraphView, p: PlanView, ready: Seq<usize>, wait: Seq<usize>, dirty: Seq<bool>)
    requires
        graph_wf(g),
        plan_counts_ok(g, p),
        ready == p.ready,
        wait == p.wait,
        dirty == flags_of(p.dirty, g.edges.len()),
    ensures
        forall|e: int|
            0 <= e < g.edges.len() && #[trigger] dirty[e] ==> wait[e] == open_count(g, e, dirty, Set::empty()),
        forall|e: int|
            0 <= e < g.edges.len() ==> (ready.contains(e as usize) <==> #[trigger] dirty[e] && wait[e] == 0),
        ids_below(ready, g.edges.len() as int),
        no_dups(ready),
{
    let n = g.edges.len();
    let f = Seq::new(n, |e: int| dirty[e] && wait[e] == 0);
    assert forall|e: int| 0 <= e < n && #[trigger] dirty[e] implies wait[e] == open_count(g, e, dirty, Set::empty()) by {
        lemma_open_empty(g, g.edges[e].ins, dirty);
        lemma_open_empty(g, g.edges[e].order_only_ins, dirty);
    }
    assert forall|e: int| 0 <= e < n implies (ready.contains(e as usize) <==> #[trigger] dirty[e] && wait[e] == 0) by {
        crate::plan::lemma_indices_where(f, n as int, e);
    }
    crate::plan::lemma_indices_where(f, n as int, 0);
    lemma_indices_increasing(f, n as int);
}

pub proof fn lemma_open_done(g: GraphView, ids: Seq<usize>, d: Seq<bool>, done: Set<usize>, c: usize)
    requires
        d[c as int],
        !done.contains(c),
    ensures
        open_of(g, ids, d, done.insert(c)) + made_by(g, ids, c) == open_of(g, ids, d, done),
    decreases ids.len(),
{
    if ids.len() > 0 {
        lemma_open_done(g, ids.drop_last(), d, done, c);
    }
}

pub proof fn lemma_occ_sum_push(outs: Seq<usize>, ids: Seq<usize>, x: usize)
    ensures
        occ_sum(outs, ids.push(x)) == occ_sum(outs, ids) + occ(outs, x),
    decreases outs.len(),
{
    if outs.len() > 0 {
        lemma_occ_sum_push(outs.drop_last(), ids, x);
        crate::graph::lemma_occ_push(ids, x, outs.last());
    }
}

pub proof fn lemma_occ_distinct(s: Seq<usize>, x: usize)
    requires
        no_dups(s),
    ensures
        occ(s, x) == if s.contains(x) {
            1nat
        } else {
            0nat
        },
    decreases s.len(),
{
    if s.len() > 0 {
        let t = s.drop_last();
        assert(no_dups(t)) by {
            assert forall|a: int, b: int| 0 <= a < b < t.len() implies t[a] != t[b] by {
                assert(s[a] != s[b]);
            }
        }
        lemma_occ_distinct(t, x);
        assert(s =~= t.push(s.last()));
        vstd::seq_lib::lemma_seq_contains_after_push(t, s.last(), x);
        if s.last() == x && t.contains(x) {
            let i = choose|i: int| 0 <= i < t.len() && t[i] == x;
            assert(s[i] == s[s.len() - 1]);
        }
    }
}

pub proof fn lemma_occ_sum_empty(outs: Seq<usize>, ids: Seq<usize>)
    requires
        ids.len() == 0,
    ensures
        occ_sum(outs, ids) == 0,
    decreases outs.len(),
{
    if outs.len() > 0 {
        lemma_occ_sum_empty(outs.drop_last(), ids);
    }
}

/// Edge `c` produces exactly the nodes it lists as outputs.
pub proof fn lemma_made_by(g: GraphView, ids: Seq<usize>, c: usize)
    requires
        graph_wf(g),
        c < g.edges.len(),
        ids_below(ids, g.nodes.len() as int),
    ensures
        made_by(g, ids, c) == occ_sum(g.edges[c as int].outs, ids),
    decreases ids.len(),
{
    if ids.len() > 0 {
        let t = ids.drop_last();
        let x = ids.last();
        lemma_made_by(g, t, c);
        assert(ids =~= t.push(x));
        lemma_occ_sum_push(g.edges[c as int].outs, t, x);
        lemma_occ_distinct(g.edges[c as int].outs, x);
        assert(x < g.nodes.len()) by {
            assert(ids[ids.len() - 1] == x);
        }
        if g.edges[c as int].outs.contains(x) {
            let k = choose|k: int| 0 <= k < g.edges[c as int].outs.len() && g.edges[c as int].outs[k] == x;
            assert(g.nodes[g.edges[c as int].outs[k] as int].producer == Some(c));
            assert(g.nodes[x as int].producer == Some(c));
        } else {
            if g.nodes[x as int].producer == Some(c) {
                let xi = x as int;
                assert(g.nodes[xi].producer is Some);
                assert(g.edges[c as int].outs.contains(xi as usize));
            }
            assert(g.nodes[x as int].producer != Some(c));
        }
        assert(made_by(g, ids, c) == made_by(g, t, c) + if g.nodes[x as int].producer == Some(c) {
            1nat
        } else {
            0nat
        });
    } else {
        lemma_occ_sum_empty(g.edges[c as int].outs, ids);
    }
}

/// How often `e` consumes the outputs of `outs` is how often it reads them.
pub proof fn lemma_consumer_hits(g: GraphView, outs: Seq<usize>, e: usize)
    requires
        graph_wf(g),
        e < g.edges.len(),
        ids_below(outs, g.nodes.len() as int),
    ensures
        consumer_hits(g, outs, e) == occ_sum(outs, g.edges[e as int].ins) + occ_sum(
            outs,
            g.edges[e as int].order_only_ins,
        ),
    decreases outs.len(),
{
    if outs.len() > 0 {
        lemma_consumer_hits(g, outs.drop_last(), e);
        let o = outs.last();
        assert(o < g.nodes.len()) by {
            assert(outs[outs.len() - 1] == o);
        }
        let oi = o as int;
        let ei = e as int;
        assert(occ(g.nodes[oi].consumers, ei as usize) == occ(g.edges[ei].ins, oi as usize) + occ(
            g.edges[ei].order_only_ins,
            oi as usize,
        ));
    }
}

/// When edge `c` is done, edge `e` waits for as many fewer producers as
/// it reads outputs of `c`.
pub proof fn lemma_complete_count(g: GraphView, c: usize, e: usize, d: Seq<bool>, done: Set<usize>)
    requires
        graph_wf(g),
        c < g.edges.len(),
        e < g.edges.len(),
        d[c as int],
        !done.contains(c),
    ensures
        open_count(g, e as int, d, done.insert(c)) + consumer_hits(g, g.edges[c as int].outs, e) == open_count(
            g,
            e as int,
            d,
            done,
        ),
{
    lemma_open_done(g, g.edges[e as int].ins, d, done, c);
    lemma_open_done(g, g.edges[e as int].order_only_ins, d, done, c);
    lemma_made_by(g, g.edges[e as int].ins, c);
    lemma_made_by(g, g.edges[e as int].order_only_ins, c);
    lemma_consumer_hits(g, g.edges[c as int].outs, e);
}


pub proof fn lemma_occ_take(s: Seq<usize>, j: int, x: usize)
    requires
        0 <= j <= s.len(),
    ensures
        occ(s.take(j), x) <= occ(s, x),
    decreases s.len(),
{
    if j < s.len() {
        assert(s.take(j) =~= s.drop_last().take(j));
        lemma_occ_take(s.drop_last(), j, x);
    } else {
        assert(s.take(j) =~= s);
    }
}

pub proof fn lemma_hits_take(g: GraphView, outs: Seq<usize>, k: int, e: usize)
    requires
        0 <= k <= outs.len(),
    ensures
        consumer_hits(g, outs.take(k), e) <= consumer_hits(g, outs, e),
    decreases outs.len(),
{
    if k < outs.len() {
        assert(outs.take(k) =~= outs.drop_last().take(k));
        lemma_hits_take(g, outs.drop_last(), k, e);
    } else {
        assert(outs.take(k) =~= outs);
    }
}

/// The consumers of the nodes `outs`, output by output, each list in order.
pub open spec fn consumers_of(g: GraphView, outs: Seq<usize>) -> Seq<usize>
    decreases outs.len(),
{
    if outs.len() == 0 {
        seq![]
    } else {
        consumers_of(g, outs.drop_last()) + g.nodes[outs.last() as int].consumers
    }
}

/// The edges of `ids[..n]` that become ready while each occurrence takes one
/// from what a dirty edge waits for, starting from `w`: a dirty edge joins
/// the queue at the occurrence that brings its count to zero.
pub open spec fn newly_ready(ids: Seq<usize>, d: Seq<bool>, w: spec_fn(usize) -> int, n: int) -> Seq<usize>
    decreases n,
{
    if n <= 0 {
        seq![]
    } else {
        let x = ids[n - 1];
        newly_ready(ids, d, w, n - 1) + if d[x as int] && occ(ids.take(n), x) == w(x) {
            seq![x]
        } else {
            seq![]
        }
    }
}

/// The counts `w` as a function of the edge.
pub open spec fn counts_of(w: Seq<usize>) -> spec_fn(usize) -> int {
    |x: usize| w[x as int] as int
}

/// How many dirty producers that are not done each edge waits for.
pub open spec fn open_counts(g: GraphView, d: Seq<bool>, done: Set<usize>) -> spec_fn(usize) -> int {
    |x: usize| open_count(g, x as int, d, done) as int
}

proof fn lemma_consumers_below(g: GraphView, outs: Seq<usize>)
    requires
        graph_wf(g),
        ids_below(outs, g.nodes.len() as int),
    ensures
        ids_below(consumers_of(g, outs), g.edges.len() as int),
    decreases outs.len(),
{
    if outs.len() > 0 {
        lemma_consumers_below(g, outs.drop_last());
        let o = outs.last();
        assert(outs[outs.len() - 1] == o);
        assert(ids_below(g.nodes[o as int].consumers, g.edges.len() as int)) by {
            assert(consumers_ok(g));
        }
        let a = consumers_of(g, outs.drop_last());
        let b = g.nodes[o as int].consumers;
        assert forall|k: int| 0 <= k < (a + b).len() implies (#[trigger] (a + b)[k]) < g.edges.len() by {
            if k < a.len() {
                assert((a + b)[k] == a[k]);
            } else {
                assert((a + b)[k] == b[k - a.len()]);
            }
        }
    }
}

proof fn lemma_hits_occ(g: GraphView, outs: Seq<usize>, e: usize)
    ensures
        consumer_hits(g, outs, e) == occ(consumers_of(g, outs), e),
    decreases outs.len(),
{
    if outs.len() > 0 {
        lemma_hits_occ(g, outs.drop_last(), e);
        crate::graph::lemma_occ_concat(
            consumers_of(g, outs.drop_last()),
            g.nodes[outs.last() as int].consumers,
            e,
        );
    }
}

proof fn lemma_newly_same(ids: Seq<usize>, d: Seq<bool>, w1: spec_fn(usize) -> int, w2: spec_fn(usize) -> int, n: int)
    requires
        0 <= n <= ids.len(),
        forall|k: int| 0 <= k < ids.len() && #[trigger] d[ids[k] as int] ==> w1(ids[k]) == w2(ids[k]),
    ensures
        newly_ready(ids, d, w1, n) == newly_ready(ids, d, w2, n),
    decreases n,
{
    if n > 0 {
        lemma_newly_same(ids, d, w1, w2, n - 1);
        let x = ids[n - 1];
        if d[x as int] {
            assert(w1(ids[n - 1]) == w2(ids[n - 1]));
        }
    }
}

proof fn lemma_newly_prefix(ids: Seq<usize>, more: Seq<usize>, d: Seq<bool>, w: spec_fn(usize) -> int, n: int)
    requires
        0 <= n <= ids.len(),
    ensures
        newly_ready(ids + more, d, w, n) == newly_ready(ids, d, w, n),
    decreases n,
{
    if n > 0 {
        lemma_newly_prefix(ids, more, d, w, n - 1);
        assert((ids + more).take(n) =~= ids.take(n));
        assert((ids + more)[n - 1] == ids[n - 1]);
    }
}

/// Going through `a` then `b` from the counts `w` queues what `a` queues
/// from `w`, then what `b` queues from the counts left after `a`.
proof fn lemma_newly_concat(
    a: Seq<usize>,
    b: Seq<usize>,
    d: Seq<bool>,
    w: spec_fn(usize) -> int,
    w2: spec_fn(usize) -> int,
    m: int,
)
    requires
        0 <= m <= b.len(),
        forall|i: int| 0 <= i < b.len() && #[trigger] d[b[i] as int] ==> w2(b[i]) + occ(a, b[i]) == w(b[i]),
    ensures
        newly_ready(a + b, d, w, a.len() + m) == newly_ready(a, d, w, a.len() as int) + newly_ready(b, d, w2, m),
    decreases m,
{
    if m == 0 {
        lemma_newly_prefix(a, b, d, w, a.len() as int);
        assert(newly_ready(a, d, w, a.len() as int) + newly_ready(b, d, w2, 0) =~= newly_ready(a, d, w, a.len() as int));
    } else {
        lemma_newly_concat(a, b, d, w, w2, m - 1);
        let n = a.len() + m;
        let x = (a + b)[n - 1];
        assert(x == b[m - 1]);
        assert((a + b).take(n) =~= a + b.take(m));
        crate::graph::lemma_occ_concat(a, b.take(m), x);
        assert(newly_ready(a + b, d, w, n) =~= newly_ready(a, d, w, a.len() as int) + newly_ready(b, d, w2, m));
    }
}

impl Scheduler {
    /// One producer of `ce` is done: a dirty `ce` that waits waits for one
    /// fewer, and is queued when it waits for none.
    fn release(&mut self, ce: usize, n: usize)
        requires
            ce < n,
            old(self).wait@.len() == n,
            old(self).dirty@.len() == n,
            no_dups(old(self).ready@),
            ids_below(old(self).ready@, n as int),
            forall|e: int|
                0 <= e < n ==> (old(self).ready@.contains(e as usize) <==> #[trigger] old(self).dirty@[e]
                    && old(self).wait@[e] == 0),
        ensures
            final(self).dirty@ == old(self).dirty@,
            final(self).head == old(self).head,
            final(self).done@ == old(self).done@,
            final(self).wait@ == if old(self).dirty@[ce as int] && old(self).wait@[ce as int] > 0 {
                old(self).wait@.update(ce as int, (old(self).wait@[ce as int] - 1) as usize)
            } else {
                old(self).wait@
            },
            final(self).ready@ == old(self).ready@ + if old(self).dirty@[ce as int] && old(self).wait@[ce as int]
                == 1 {
                seq![ce]
            } else {
                seq![]
            },
            old(self).ready@.len() <= final(self).ready@.len(),
            final(self).ready@.take(old(self).ready@.len() as int) == old(self).ready@,
            no_dups(final(self).ready@),
            ids_below(final(self).ready@, n as int),
            forall|e: int|
                0 <= e < n ==> (final(self).ready@.contains(e as usize) <==> #[trigger] final(self).dirty@[e]
                    && final(self).wait@[e] == 0),
    {
        let ghost rb = self.ready@;
        let ghost wb = self.wait@;
        assert forall|e: int| 0 <= e < n implies (rb.contains(e as usize) <==> self.dirty@[e] && wb[e] == 0) by {
            assert(old(self).dirty@[e] == self.dirty@[e]);
        }
        if self.dirty[ce] && self.wait[ce] > 0 {
            let w = self.wait[ce] - 1;
            self.wait.set(ce, w);
            if w == 0 {
                assert(!rb.contains(ce)) by {
                    assert(rb.contains((ce as int) as usize) <==> self.dirty@[ce as int] && wb[ce as int] == 0);
                }
                self.ready.push(ce);
                assert forall|a: int, b: int| 0 <= a < b < self.ready@.len() implies self.ready@[a] != self.ready@[b] by {
                    if b == self.ready@.len() - 1 {
                        assert(self.ready@[b] == ce);
                        assert(rb[a] == self.ready@[a]);
                        assert(rb.contains(rb[a]));
                    }
                }
            }
            assert forall|e: int| 0 <= e < n implies (self.ready@.contains(e as usize) <==> #[trigger] self.dirty@[e]
                && self.wait@[e] == 0) by {
                if w == 0 {
                    vstd::seq_lib::lemma_seq_contains_after_push(rb, ce, e as usize);
                }
                if e != ce {
                    assert(self.wait@[e] == wb[e]);
                }
            }
        }
        assert(self.ready@.take(rb.len() as int) =~= rb);
        assert(self.ready@ =~= rb + if old(self).dirty@[ce as int] && old(self).wait@[ce as int] == 1 {
            seq![ce]
        } else {
            seq![]
        });
    }
}

impl Scheduler {
    /// Every edge of `cons` has one producer fewer to wait for, once per
    /// occurrence.
    fn release_all(&mut self, cons: &Vec<EdgeId>, n: usize)
        requires
            old(self).wait@.len() == n,
            old(self).dirty@.len() == n,
            no_dups(old(self).ready@),
            ids_below(old(self).ready@, n as int),
            ids_below(cons@, n as int),
            forall|e: int|
                0 <= e < n ==> (old(self).ready@.contains(e as usize) <==> #[trigger] old(self).dirty@[e]
                    && old(self).wait@[e] == 0),
            forall|e: usize| e < n && #[trigger] old(self).dirty@[e as int] ==> occ(cons@, e) <= old(self).wait@[e as int],
        ensures
            final(self).dirty@ == old(self).dirty@,
            final(self).head == old(self).head,
            final(self).done@ == old(self).done@,
            final(self).wait@.len() == n,
            old(self).ready@.len() <= final(self).ready@.len(),
            final(self).ready@.take(old(self).ready@.len() as int) == old(self).ready@,
            no_dups(final(self).ready@),
            ids_below(final(self).ready@, n as int),
            forall|e: int|
                0 <= e < n ==> (final(self).ready@.contains(e as usize) <==> #[trigger] final(self).dirty@[e]
                    && final(self).wait@[e] == 0),
            forall|e: usize|
                e < n && #[trigger] final(self).dirty@[e as int] ==> final(self).wait@[e as int] + occ(cons@, e)
                    == old(self).wait@[e as int],
            forall|e: int| 0 <= e < n && !final(self).dirty@[e] ==> #[trigger] final(self).wait@[e] == old(self).wait@[e],
            final(self).ready@ == old(self).ready@ + newly_ready(
                cons@,
                old(self).dirty@,
                counts_of(old(self).wait@),
                cons@.len() as int,
            ),
    {
        let ghost w0 = self.wait@;
        let ghost r0 = self.ready@;
        assert(r0 + newly_ready(cons@, self.dirty@, counts_of(w0), 0) =~= r0);
        let mut j: usize = 0;
        while j < cons.len()
            invariant
                j <= cons@.len(),
                ids_below(cons@, n as int),
                self.dirty@ == old(self).dirty@,
                self.head == old(self).head,
                self.done@ == old(self).done@,
                self.wait@.len() == n,
                self.dirty@.len() == n,
                w0.len() == n,
                r0.len() <= self.ready@.len(),
                self.ready@.take(r0.len() as int) == r0,
                no_dups(self.ready@),
                ids_below(self.ready@, n as int),
                forall|e: int|
                    0 <= e < n ==> (self.ready@.contains(e as usize) <==> #[trigger] self.dirty@[e] && self.wait@[e]
                        == 0),
                forall|e: usize| e < n && #[trigger] self.dirty@[e as int] ==> occ(cons@, e) <= w0[e as int],
                forall|e: usize|
                    e < n && #[trigger] self.dirty@[e as int] ==> self.wait@[e as int] + occ(cons@.take(j as int), e)
                        == w0[e as int],
                forall|e: int| 0 <= e < n && !self.dirty@[e] ==> #[trigger] self.wait@[e] == w0[e],
                self.ready@ == r0 + newly_ready(cons@, self.dirty@, counts_of(w0), j as int),
            decreases cons@.len() - j,
        {
            let ce = cons[j];
            assert(ce < n) by {
                assert(cons@[j as int] == ce);
            }
            proof {
                assert(cons@.take(j + 1) =~= cons@.take(j as int).push(ce));
                crate::graph::lemma_occ_push(cons@.take(j as int), ce, ce);
                lemma_occ_take(cons@, j + 1, ce);
            }
            let ghost rb = self.ready@;
            let ghost wb = self.wait@;
            self.release(ce, n);
            proof {
                assert(cons@[j as int] == ce);
                if self.dirty@[ce as int] {
                    assert(wb[ce as int] + occ(cons@.take(j as int), ce) == w0[ce as int]);
                    assert((wb[ce as int] == 1) == (occ(cons@.take(j + 1), ce) == counts_of(w0)(ce)));
                }
                assert(newly_ready(cons@, self.dirty@, counts_of(w0), j + 1) == newly_ready(
                    cons@,
                    self.dirty@,
                    counts_of(w0),
                    j as int,
                ) + if self.dirty@[ce as int] && occ(cons@.take(j + 1), ce) == counts_of(w0)(ce) {
                    seq![ce]
                } else {
                    seq![]
                });
                assert(self.ready@ =~= r0 + newly_ready(cons@, self.dirty@, counts_of(w0), j + 1));
                assert(self.ready@.take(r0.len() as int) =~= rb.take(r0.len() as int));
                assert forall|e: usize|
                    e < n && #[trigger] self.dirty@[e as int] implies self.wait@[e as int] + occ(cons@.take(j + 1), e)
                        == w0[e as int] by {
                    crate::graph::lemma_occ_push(cons@.take(j as int), ce, e);
                }
            }
            j = j + 1;
        }
        assert(cons@.take(cons@.len() as int) =~= cons@);
    }
}

impl Scheduler {
    /// Every dirty edge that reads an output of `eid` has one producer fewer
    /// to wait for, once per reading.
    fn release_outputs(&mut self, graph: &Graph, eid: EdgeId)
        requires
            graph_wf(graph@),
            eid < graph@.edges.len(),
            old(self).wait@.len() == graph@.edges.len(),
            old(self).dirty@.len() == graph@.edges.len(),
            no_dups(old(self).ready@),
            ids_below(old(self).ready@, graph@.edges.len() as int),
            forall|e: int|
                0 <= e < graph@.edges.len() ==> (old(self).ready@.contains(e as usize) <==> #[trigger] old(self).dirty@[e] && old(self).wait@[e] == 0),
            forall|e: usize|
                e < graph@.edges.len() && #[trigger] old(self).dirty@[e as int] ==> consumer_hits(
                    graph@,
                    graph@.edges[eid as int].outs,
                    e,
                ) <= old(self).wait@[e as int],
        ensures
            final(self).dirty@ == old(self).dirty@,
            final(self).head == old(self).head,
            final(self).done@ == old(self).done@,
            final(self).wait@.len() == graph@.edges.len(),
            old(self).ready@.len() <= final(self).ready@.len(),
            final(self).ready@.take(old(self).ready@.len() as int) == old(self).ready@,
            no_dups(final(self).ready@),
            ids_below(final(self).ready@, graph@.edges.len() as int),
            forall|e: int|
                0 <= e < graph@.edges.len() ==> (final(self).ready@.contains(e as usize) <==> #[trigger] final(self).dirty@[e] && final(self).wait@[e] == 0),
            forall|e: usize|
                e < graph@.edges.len() && #[trigger] final(self).dirty@[e as int] ==> final(self).wait@[e as int]
                    + consumer_hits(graph@, graph@.edges[eid as int].outs, e) == old(self).wait@[e as int],
            forall|e: int|
                0 <= e < graph@.edges.len() && !final(self).dirty@[e] ==> #[trigger] final(self).wait@[e] == old(self).wait@[e],
            final(self).ready@ == old(self).ready@ + newly_ready(
                consumers_of(graph@, graph@.edges[eid as int].outs),
                old(self).dirty@,
                counts_of(old(self).wait@),
                consumers_of(graph@, graph@.edges[eid as int].outs).len() as int,
            ),
    {
        let ghost g = graph@;
        let ghost w0 = self.wait@;
        let ghost r0 = self.ready@;
        let ghost n = g.edges.len();
        let ghost d = self.dirty@;
        let edge = &graph.edges[eid];
        assert(g.edges[eid as int] == edge@);
        let n_edges = graph.edges.len();
        let mut k: usize = 0;
        assert(edge@.outs.take(0) =~= Seq::<usize>::empty());
        assert(r0 + newly_ready(consumers_of(g, edge@.outs.take(0)), d, counts_of(w0), 0) =~= r0);
        while k < edge.outs.len()
            invariant
                graph_wf(g),
                g == graph@,
                eid < n,
                n == g.edges.len(),
                n_edges == n,
                edge@ == g.edges[eid as int],
                k <= edge.outs@.len(),
                self.dirty@ == old(self).dirty@,
                self.head == old(self).head,
                self.done@ == old(self).done@,
                self.wait@.len() == n,
                self.dirty@.len() == n,
                w0.len() == n,
                self.ready@.take(r0.len() as int) == r0,
                r0.len() <= self.ready@.len(),
                no_dups(self.ready@),
                ids_below(self.ready@, n as int),
                forall|e: int|
                    0 <= e < n ==> (self.ready@.contains(e as usize) <==> #[trigger] self.dirty@[e] && self.wait@[e]
                        == 0),
                forall|e: usize|
                    e < n && #[trigger] self.dirty@[e as int] ==> self.wait@[e as int] + consumer_hits(
                        g,
                        edge@.outs.take(k as int),
                        e,
                    ) == w0[e as int] && consumer_hits(g, edge@.outs, e) <= w0[e as int],
                forall|e: int| 0 <= e < n && !self.dirty@[e] ==> #[trigger] self.wait@[e] == w0[e],
                d == self.dirty@,
                self.ready@ == r0 + newly_ready(
                    consumers_of(g, edge@.outs.take(k as int)),
                    d,
                    counts_of(w0),
                    consumers_of(g, edge@.outs.take(k as int)).len() as int,
                ),
            decreases edge.outs@.len() - k,
        {
            let o = edge.outs[k];
            assert(crate::graph::ids_below(g.edges[eid as int].outs, g.nodes.len() as int));
            assert(o < g.nodes.len());
            assert(g.nodes[o as int] == graph.nodes@[o as int]@);
            let cons = &graph.nodes[o].consumers;
            let ghost ok = edge@.outs.take(k as int);
            let ghost rb = self.ready@;
            proof {
                assert(crate::graph::ids_below(g.nodes[o as int].consumers, g.edges.len() as int));
                assert(edge@.outs.take(k + 1) =~= ok.push(o));
                assert(ok.push(o).drop_last() =~= ok);
                assert forall|e: usize| e < n && #[trigger] self.dirty@[e as int] implies occ(cons@, e) <= self.wait@[e as int] by {
                    lemma_hits_take(g, edge@.outs, k + 1, e);
                    assert(consumer_hits(g, edge@.outs.take(k + 1), e) == consumer_hits(g, ok, e) + occ(cons@, e));
                }
            }
            let ghost wb = self.wait@;
            self.release_all(cons, n_edges);
            proof {
                let fa = consumers_of(g, ok);
                let fb = cons@;
                assert(consumers_of(g, edge@.outs.take(k + 1)) == fa + fb) by {
                    assert(edge@.outs.take(k + 1) =~= ok.push(o));
                    assert(ok.push(o).drop_last() =~= ok);
                }
                assert forall|i: int| 0 <= i < fb.len() && #[trigger] d[fb[i] as int] implies counts_of(wb)(fb[i])
                    + occ(fa, fb[i]) == counts_of(w0)(fb[i]) by {
                    assert(fb[i] < n);
                    lemma_hits_occ(g, ok, fb[i]);
                }
                lemma_newly_concat(fa, fb, d, counts_of(w0), counts_of(wb), fb.len() as int);
                assert(self.ready@ =~= r0 + newly_ready(
                    consumers_of(g, edge@.outs.take(k + 1)),
                    d,
                    counts_of(w0),
                    consumers_of(g, edge@.outs.take(k + 1)).len() as int,
                ));
                assert(self.ready@.take(r0.len() as int) =~= rb.take(r0.len() as int));
                assert(edge@.outs.take(k + 1) =~= ok.push(o));
                assert forall|e: usize|
                    e < n && #[trigger] self.dirty@[e as int] implies self.wait@[e as int] + consumer_hits(
                        g,
                        edge@.outs.take(k + 1),
                        e,
                    ) == w0[e as int] by {
                    assert(ok.push(o).drop_last() =~= ok);
                    assert(consumer_hits(g, edge@.outs.take(k + 1), e) == consumer_hits(g, ok, e) + occ(cons@, e));
                }
            }
            k = k + 1;
        }
        assert(edge@.outs.take(edge@.outs.len() as int) =~= edge@.outs);
    }

    /// Before `eid` is reported done: it is a dirty edge, and each dirty
    /// edge still waits for at least as many producers as it reads outputs
    /// of `eid`.
    proof fn lemma_complete_pre(&self, g: GraphView, eid: usize)
        requires
            graph_wf(g),
            self.inv(g),
            self.handed_out().contains(eid),
            !self.done_set().contains(eid),
        ensures
            eid < g.edges.len(),
            self.dirty@[eid as int],
            forall|e: usize|
                e < g.edges.len() && #[trigger] self.dirty@[e as int] ==> consumer_hits(
                    g,
                    g.edges[eid as int].outs,
                    e,
                ) <= self.wait@[e as int],
    {
        let n = g.edges.len();
        let i = choose|i: int| 0 <= i < self.head && self.ready@.take(self.head as int)[i] == eid;
        assert(self.ready@[i] == eid);
        assert(self.ready@.contains(eid));
        self.lemma_inv_at(g, eid as int);
        assert forall|e: usize| e < n && #[trigger] self.dirty@[e as int] implies consumer_hits(
            g,
            g.edges[eid as int].outs,
            e,
        ) <= self.wait@[e as int] by {
            lemma_complete_count(g, eid, e, self.dirty@, self.done@);
        }
    }

    /// After the outputs of `eid` were released and `eid` recorded as done,
    /// the invariant holds again and the queue grew by the edges that now
    /// wait for nothing, in the order their readings were released.
    proof fn lemma_complete_post(s0: Scheduler, s1: Scheduler, g: GraphView, eid: usize)
        requires
            graph_wf(g),
            s0.inv(g),
            eid < g.edges.len(),
            s0.dirty@[eid as int],
            !s0.done@.contains(eid),
            s0.ready@.take(s0.head as int).contains(eid),
            s1.dirty@ == s0.dirty@,
            s1.head == s0.head,
            s1.done@ == s0.done@.insert(eid),
            s1.wait@.len() == g.edges.len(),
            s0.ready@.len() <= s1.ready@.len(),
            s1.ready@.take(s0.ready@.len() as int) == s0.ready@,
            no_dups(s1.ready@),
            ids_below(s1.ready@, g.edges.len() as int),
            forall|e: int|
                0 <= e < g.edges.len() ==> (s1.ready@.contains(e as usize) <==> #[trigger] s1.dirty@[e] && s1.wait@[e] == 0),
            forall|e: usize|
                e < g.edges.len() && #[trigger] s1.dirty@[e as int] ==> s1.wait@[e as int]
                    + consumer_hits(g, g.edges[eid as int].outs, e) == s0.wait@[e as int],
            s1.ready@ == s0.ready@ + newly_ready(
                consumers_of(g, g.edges[eid as int].outs),
                s0.dirty@,
                counts_of(s0.wait@),
                consumers_of(g, g.edges[eid as int].outs).len() as int,
            ),
        ensures
            s1.inv(g),
            s1.handed_out() == s0.handed_out(),
            s1.queued() == s0.queued() + newly_ready(
                consumers_of(g, g.edges[eid as int].outs),
                s0.dirty@,
                open_counts(g, s0.dirty@, s0.done@),
                consumers_of(g, g.edges[eid as int].outs).len() as int,
            ),
    {
        Scheduler::lemma_complete_queue(s0, s1, g, eid);
        Scheduler::lemma_complete_counts(s0, s1, g, eid);
        let h = s0.head as int;
        assert(s1.ready@.take(h) =~= s0.ready@.take(h));
        assert forall|c: usize| #[trigger] s1.done@.contains(c) implies s1.ready@.take(h).contains(c) by {
            if c != eid {
                assert(s0.done@.contains(c));
            }
        }
    }

    /// The edges queued by a completion are those that wait for no dirty
    /// producer that is not done.
    #[verifier::spinoff_prover]
    proof fn lemma_complete_queue(s0: Scheduler, s1: Scheduler, g: GraphView, eid: usize)
        requires
            graph_wf(g),
            s0.inv(g),
            eid < g.edges.len(),
            s1.head == s0.head,
            s0.ready@.len() <= s1.ready@.len(),
            s1.ready@ == s0.ready@ + newly_ready(
                consumers_of(g, g.edges[eid as int].outs),
                s0.dirty@,
                counts_of(s0.wait@),
                consumers_of(g, g.edges[eid as int].outs).len() as int,
            ),
        ensures
            s1.queued() == s0.queued() + newly_ready(
                consumers_of(g, g.edges[eid as int].outs),
                s0.dirty@,
                open_counts(g, s0.dirty@, s0.done@),
                consumers_of(g, g.edges[eid as int].outs).len() as int,
            ),
    {
        let n = g.edges.len();
        let outs = g.edges[eid as int].outs;
        let flat = consumers_of(g, outs);
        let d = s0.dirty@;
        assert(ids_below(outs, g.nodes.len() as int)) by {
            assert(edges_ok(g));
        }
        lemma_consumers_below(g, outs);
        assert forall|k: int| 0 <= k < flat.len() && #[trigger] d[flat[k] as int] implies counts_of(s0.wait@)(
            flat[k],
        ) == open_counts(g, d, s0.done@)(flat[k]) by {
            assert(flat[k] < n);
        }
        lemma_newly_same(flat, d, counts_of(s0.wait@), open_counts(g, d, s0.done@), flat.len() as int);
        let h = s0.head as int;
        assert(s1.ready@.skip(h) =~= s0.ready@.skip(h) + newly_ready(
            flat,
            d,
            open_counts(g, d, s0.done@),
            flat.len() as int,
        ));
    }

    /// After a completion each dirty edge waits for as many producers as
    /// are dirty and not done.
    #[verifier::spinoff_prover]
    proof fn lemma_complete_counts(s0: Scheduler, s1: Scheduler, g: GraphView, eid: usize)
        requires
            graph_wf(g),
            s0.inv(g),
            eid < g.edges.len(),
            s0.dirty@[eid as int],
            !s0.done@.contains(eid),
            s1.dirty@ == s0.dirty@,
            s1.done@ == s0.done@.insert(eid),
            forall|e: usize|
                e < g.edges.len() && #[trigger] s1.dirty@[e as int] ==> s1.wait@[e as int]
                    + consumer_hits(g, g.edges[eid as int].outs, e) == s0.wait@[e as int],
        ensures
            forall|e: int|
                0 <= e < g.edges.len() && #[trigger] s1.dirty@[e] ==> s1.wait@[e] == open_count(
                    g,
                    e,
                    s1.dirty@,
                    s1.done@,
                ),
    {
        let n = g.edges.len();
        assert forall|e: int| 0 <= e < n && #[trigger] s1.dirty@[e] implies s1.wait@[e] == open_count(
            g,
            e,
            s1.dirty@,
            s1.done@,
        ) by {
            lemma_complete_count(g, eid, e as usize, s0.dirty@, s0.done@);
            assert(s1.dirty@[(e as usize) as int]);
        }
    }

    /// Records that edge `eid` finished: each dirty edge that reads its
    /// outputs waits for one producer fewer, and is queued when it waits
    /// for none.
    pub fn complete(&mut self, graph: &Graph, eid: EdgeId)
        requires
            graph_wf(graph@),
            old(self).inv(graph@),
            old(self).handed_out().contains(eid),
            !old(self).done_set().contains(eid),
        ensures
            final(self).inv(graph@),
            final(self).done_set() == old(self).done_set().insert(eid),
            final(self).dirty_flags() == old(self).dirty_flags(),
            final(self).handed_out() == old(self).handed_out(),
            final(self).queued().take(old(self).queued().len() as int) == old(self).queued(),
            final(self).queued() == old(self).queued() + newly_ready(
                consumers_of(graph@, graph@.edges[eid as int].outs),
                old(self).dirty_flags(),
                open_counts(graph@, old(self).dirty_flags(), old(self).done_set()),
                consumers_of(graph@, graph@.edges[eid as int].outs).len() as int,
            ),
    {
        let ghost s0 = *self;
        proof {
            self.lemma_complete_pre(graph@, eid);
        }
        self.release_outputs(graph, eid);
        self.done = Ghost(self.done@.insert(eid));
        proof {
            Scheduler::lemma_complete_post(s0, *self, graph@, eid);
            let q0 = s0.queued();
            assert(self.queued().take(q0.len() as int) =~= q0);
        }
    }
}


// ---------------------------------------------------------------------------
// A run of the jobs
/// The scheduler of a run, with the jobs that failed and whether a failure
/// stopped the run.
pub struct JobQueue {
    sched: Scheduler,
    failed: usize,
    stopped: bool,
    failed_set: Ghost<Set<usize>>,
    running: usize,
    slots: usize,
    live: Ghost<Set<usize>>,
}

impl JobQueue {
    pub closed spec fn scheduler(&self) -> Scheduler {
        self.sched
    }

    /// How many jobs failed.
    pub closed spec fn failures(&self) -> nat {
        self.failed as nat
    }

    /// The jobs that failed.
    pub closed spec fn failed_edges(&self) -> Set<usize> {
        self.failed_set@
    }

    /// Whether a failure stopped the run: no job is handed out any more.
    pub closed spec fn is_stopped(&self) -> bool {
        self.stopped
    }

    /// The jobs handed out whose end was not reported yet.
    pub closed spec fn in_flight(&self) -> Set<usize> {
        self.live@
    }

    /// How many jobs may run at once.
    pub closed spec fn capacity(&self) -> nat {
        self.slots as nat
    }

    /// The scheduler is sound; the failed jobs were handed out, are not
    /// done, and are counted; the jobs in flight are those handed out and
    /// neither done nor failed, and there are no more of them than slots.
    pub closed spec fn wf(&self, g: GraphView) -> bool {
        &&& self.sched.inv(g)
        &&& self.failed_set@.finite()
        &&& self.failed as nat == self.failed_set@.len()
        &&& forall|c: usize|
            #[trigger] self.failed_set@.contains(c) ==> self.sched.handed_out().contains(c)
                && !self.sched.done_set().contains(c)
        &&& self.live@.finite()
        &&& self.running as nat == self.live@.len()
        &&& self.running <= self.slots
        &&& forall|c: usize|
            #[trigger] self.live@.contains(c) <==> (self.sched.handed_out().contains(c)
                && !self.sched.done_set().contains(c) && !self.failed_set@.contains(c))
    }

    /// However a run goes, no more jobs are in flight than it has slots,
    /// and each of them was handed out and has neither succeeded nor failed.
    pub proof fn lemma_in_flight_bounded(&self, g: GraphView)
        requires
            self.wf(g),
        ensures
            self.in_flight().finite(),
            self.in_flight().len() <= self.capacity(),
            forall|c: usize|
                #[trigger] self.in_flight().contains(c) ==> self.scheduler().handed_out().contains(c)
                    && !self.scheduler().done_set().contains(c) && !self.failed_edges().contains(c),
    {
    }

    /// The end of a run that no failure stopped: once nothing is queued and
    /// nothing is in flight, every job handed out succeeded or failed, and
    /// every dirty edge whose dirty producers all succeeded was handed out.
    pub proof fn lemma_run_complete(&self, g: GraphView)
        requires
            self.wf(g),
            self.scheduler().queued().len() == 0,
            self.in_flight().is_empty(),
        ensures
            forall|c: usize|
                #[trigger] self.scheduler().handed_out().contains(c) ==> self.scheduler().done_set().contains(c)
                    || self.failed_edges().contains(c),
            forall|e: int|
                0 <= e < g.edges.len() && #[trigger] self.scheduler().dirty_flags()[e] && open_count(
                    g,
                    e,
                    self.scheduler().dirty_flags(),
                    self.scheduler().done_set(),
                ) == 0 ==> self.scheduler().handed_out().contains(e as usize),
    {
        assert forall|c: usize| #[trigger] self.scheduler().handed_out().contains(c) implies self.scheduler().done_set().contains(c)
            || self.failed_edges().contains(c) by {
            assert(!self.live@.contains(c));
        }
        self.sched.lemma_drained(g);
    }

    /// A run of a plan with `slots` jobs at once: nothing handed out, done
    /// or failed yet.
    pub fn new(graph: &Graph, plan: &Plan, slots: usize) -> (r: Self)
        requires
            graph_wf(graph@),
            plan_counts_ok(graph@, plan@),
        ensures
            r.wf(graph@),
            r.scheduler().done_set().is_empty(),
            r.scheduler().handed_out().len() == 0,
            r.scheduler().queued() == plan@.ready,
            r.scheduler().dirty_flags() == flags_of(plan@.dirty, graph@.edges.len()),
            r.failures() == 0,
            r.failed_edges().is_empty(),
            !r.is_stopped(),
            r.in_flight().is_empty(),
            r.capacity() == slots,
    {
        let sched = Scheduler::new(graph, plan);
        JobQueue {
            sched,
            failed: 0,
            stopped: false,
            failed_set: Ghost(Set::empty()),
            running: 0,
            slots,
            live: Ghost(Set::empty()),
        }
    }

    /// The next job to run, unless a failure stopped the run or every slot
    /// is taken: as `Scheduler::next` gives it.  The job is then in flight.
    pub fn next(&mut self, graph: &Graph) -> (r: Option<EdgeId>)
        requires
            old(self).wf(graph@),
        ensures
            final(self).wf(graph@),
            final(self).failures() == old(self).failures(),
            final(self).failed_edges() == old(self).failed_edges(),
            final(self).is_stopped() == old(self).is_stopped(),
            final(self).capacity() == old(self).capacity(),
            final(self).scheduler().done_set() == old(self).scheduler().done_set(),
            final(self).scheduler().dirty_flags() == old(self).scheduler().dirty_flags(),
            old(self).is_stopped() || old(self).in_flight().len() >= old(self).capacity() ==> r is None
                && final(self).scheduler() == old(self).scheduler(),
            r matches Some(e) ==> may_run(
                graph@,
                e as int,
                final(self).scheduler().dirty_flags(),
                final(self).scheduler().done_set(),
            ),
            r matches Some(e) ==> !old(self).in_flight().contains(e) && final(self).in_flight() == old(
                self,
            ).in_flight().insert(e),
            r is None ==> final(self).in_flight() == old(self).in_flight(),
            !old(self).is_stopped() && old(self).in_flight().len() < old(self).capacity() ==> match r {
                None => old(self).scheduler().queued().len() == 0 && final(self).scheduler().handed_out()
                    == old(self).scheduler().handed_out() && final(self).scheduler().queued() == old(
                    self).scheduler().queued(),
                Some(e) => old(self).scheduler().queued().len() > 0 && e == old(self).scheduler().queued()[0]
                    && final(self).scheduler().handed_out() == old(self).scheduler().handed_out().push(e)
                    && final(self).scheduler().queued() == old(self).scheduler().queued().drop_first(),
            },
    {
        if self.stopped || self.running >= self.slots {
            return None;
        }
        let ghost h0 = self.sched.handed_out();
        let ghost s0 = self.sched;
        let r = self.sched.next(graph);
        assert forall|c: usize| #[trigger] self.failed_set@.contains(c) implies self.sched.handed_out().contains(c)
            && !self.sched.done_set().contains(c) by {
            assert(h0.contains(c));
            if r is Some {
                let i = choose|i: int| 0 <= i < h0.len() && h0[i] == c;
                assert(self.sched.handed_out()[i] == c);
            }
        }
        match r {
            Some(e) => {
                proof {
                    let hd = s0.head as int;
                    assert(s0.ready@[hd] == e);
                    assert(!h0.contains(e)) by {
                        if h0.contains(e) {
                            let i = choose|i: int| 0 <= i < h0.len() && h0[i] == e;
                            assert(s0.ready@[i] == e);
                        }
                    }
                    assert(!self.live@.contains(e));
                    assert forall|c: usize|
                        #[trigger] self.live@.insert(e).contains(c) <==> (self.sched.handed_out().contains(c)
                            && !self.sched.done_set().contains(c) && !self.failed_set@.contains(c)) by {
                        if c != e && self.sched.handed_out().contains(c) {
                            let i = choose|i: int| 0 <= i < h0.len() + 1 && h0.push(e)[i] == c;
                            assert(i < h0.len());
                            assert(h0[i] == c);
                        }
                        if h0.contains(c) {
                            let i = choose|i: int| 0 <= i < h0.len() && h0[i] == c;
                            assert(self.sched.handed_out()[i] == c);
                        }
                        if c == e {
                            assert(self.sched.handed_out()[h0.len() as int] == e);
                        }
                    }
                }
                self.live = Ghost(self.live@.insert(e));
                self.running = self.running + 1;
            },
            None => {},
        }
        r
    }

    /// Records how a handed-out job ended.  A success is recorded as done
    /// (`Scheduler::complete`); a failure is counted, its job is never done,
    /// and without `keep_going` it stops the run.
    pub fn finish_job(&mut self, graph: &Graph, eid: EdgeId, ok: bool, keep_going: bool) -> (stop: bool)
        requires
            graph_wf(graph@),
            old(self).wf(graph@),
            old(self).scheduler().handed_out().contains(eid),
            !old(self).scheduler().done_set().contains(eid),
            !old(self).failed_edges().contains(eid),
        ensures
            final(self).wf(graph@),
            stop == (!ok && !keep_going),
            final(self).is_stopped() == (old(self).is_stopped() || stop),
            ok ==> {
                &&& final(self).scheduler().done_set() == old(self).scheduler().done_set().insert(eid)
                &&& final(self).scheduler().dirty_flags() == old(self).scheduler().dirty_flags()
                &&& final(self).scheduler().handed_out() == old(self).scheduler().handed_out()
                &&& final(self).scheduler().queued().take(old(self).scheduler().queued().len() as int)
                    == old(self).scheduler().queued()
                &&& final(self).scheduler().queued() == old(self).scheduler().queued() + newly_ready(
                    consumers_of(graph@, graph@.edges[eid as int].outs),
                    old(self).scheduler().dirty_flags(),
                    open_counts(graph@, old(self).scheduler().dirty_flags(), old(self).scheduler().done_set()),
                    consumers_of(graph@, graph@.edges[eid as int].outs).len() as int,
                )
                &&& final(self).failures() == old(self).failures()
                &&& final(self).failed_edges() == old(self).failed_edges()
            },
            !ok ==> {
                &&& final(self).scheduler() == old(self).scheduler()
                &&& final(self).failures() == old(self).failures() + 1
                &&& final(self).failed_edges() == old(self).failed_edges().insert(eid)
            },
            final(self).in_flight() == old(self).in_flight().remove(eid),
            final(self).capacity() == old(self).capacity(),
    {
        proof {
            assert(self.live@.contains(eid));
            vstd::set_lib::lemma_set_empty_equivalency_len(self.live@);
        }
        self.live = Ghost(self.live@.remove(eid));
        self.running = self.running - 1;
        if ok {
            let ghost d0 = self.sched.done_set();
            self.sched.complete(graph, eid);
            assert forall|c: usize| #[trigger] self.failed_set@.contains(c) implies self.sched.handed_out().contains(c)
                && !self.sched.done_set().contains(c) by {
                assert(c != eid);
            }
            false
        } else {
            proof {
                let hs = self.sched.handed_out().to_set();
                assert(self.failed_set@.subset_of(hs.remove(eid)));
                self.sched.handed_out().lemma_cardinality_of_set();
                vstd::set_lib::lemma_len_subset(self.failed_set@, hs.remove(eid));
                assert(hs.contains(eid));
                assert(self.sched.handed_out().len() == self.sched.head);
                assert(self.sched.head <= self.sched.ready@.len());
                assert(self.sched.ready@.len() == self.sched.ready.len());
            }
            self.failed = self.failed + 1;
            self.failed_set = Ghost(self.failed_set@.insert(eid));
            if !keep_going {
                self.stopped = true;
            }
            !keep_going
        }
    }

    /// How many jobs are in flight.
    pub fn running(&self, graph: &Graph) -> (r: usize)
        requires
            self.wf(graph@),
        ensures
            r == self.in_flight().len(),
    {
        self.running
    }

    /// Whether a worker that got no job has nothing left to wait for: no
    /// job is in flight, or a failure stopped the run.
    pub fn idle(&self, graph: &Graph) -> (r: bool)
        requires
            self.wf(graph@),
        ensures
            r == (self.in_flight().len() == 0 || self.is_stopped()),
    {
        self.running == 0 || self.stopped
    }

    /// How many jobs were handed out, run or not.
    pub fn started(&self, graph: &Graph) -> (r: usize)
        requires
            self.wf(graph@),
        ensures
            r == self.scheduler().handed_out().len(),
    {
        self.sched.head
    }

    /// Whether a failure stopped the run.
    pub fn stopped(&self) -> (r: bool)
        ensures
            r == self.is_stopped(),
    {
        self.stopped
    }

    /// How many jobs failed.
    pub fn failed_count(&self) -> (r: usize)
        ensures
            r == self.failures(),
    {
        self.failed
    }

    /// What the run comes to: an error when a job failed, else the number of
    /// jobs started.
    pub fn outcome(&self, graph: &Graph, elapsed_ms: u128) -> (r: Result<BuildResult>)
        requires
            self.wf(graph@),
        ensures
            r is Err <==> self.failures() > 0,
            r matches Err(e) ==> e@ == build_error(failed_msg(self.failures())),
            r matches Ok(b) ==> b.ran == self.scheduler().handed_out().len() && b.failed == 0 && b.elapsed_ms
                == elapsed_ms && !b.nothing_to_do,
    {
        build_outcome(self.sched.head, self.failed, elapsed_ms)
    }
}

// ---------------------------------------------------------------------------
// One job
/// The paths of the outputs of edge `e`.
pub open spec fn out_paths(g: GraphView, e: int) -> Seq<Seq<char>> {
    g.edges[e].outs.map_values(|o: usize| path_of(g, o))
}

/// The paths that a run of edge `e` rewrites: its outputs and its depfile.
pub open spec fn rewritten(g: GraphView, e: int) -> Set<Seq<char>> {
    match g.edges[e].depfile {
        Some(d) => out_paths(g, e).to_set().insert(d),
        None => out_paths(g, e).to_set(),
    }
}

/// The log after edge `e` ran: each output recorded with the command's hash.
pub open spec fn logged(lg: Map<Seq<char>, u64>, g: GraphView, e: int) -> Map<Seq<char>, u64> {
    lg.union_prefer_right(Map::new(|k: Seq<char>| out_paths(g, e).contains(k), |k: Seq<char>| g.edges[e].command_hash))
}

/// The full paths whose directories must exist before edge `e` runs: its
/// outputs, then its depfile.
pub open spec fn job_paths_spec(g: GraphView, e: int) -> Seq<Seq<char>> {
    let outs = out_paths(g, e).map_values(|p: Seq<char>| joined(g.workdir, p));
    match g.edges[e].depfile {
        Some(d) => outs.push(joined(g.workdir, d)),
        None => outs,
    }
}

/// `n` in decimal, padded with spaces on the left to `w` characters.
pub open spec fn padded(n: nat, w: nat) -> Seq<char> {
    let d = decimal(n);
    if d.len() >= w {
        d
    } else {
        Seq::new((w - d.len()) as nat, |i: int| ' ') + d
    }
}

/// `[idx/total]`, with `idx` right-aligned to the width of `total`.
pub open spec fn progress_text(idx: nat, total: nat) -> Seq<char> {
    "["@ + padded(idx, decimal(total).len()) + "/"@ + decimal(total) + "]"@
}

/// The report of a failed command: the command, then what it printed, ended
/// by a line feed.
pub open spec fn failure_text(command: Seq<char>, output: Seq<char>) -> Seq<char> {
    let m = "FAILED: "@ + command + "\n"@ + output;
    if m.len() > 0 && m.last() == '\n' {
        m
    } else {
        m.push('\n')
    }
}

impl Graph {
    /// Records a successful run of edge `eid`: every output gets the
    /// command's hash in the log, and the stat results of the outputs and
    /// of the depfile are forgotten.
    pub fn record_built(&self, eid: EdgeId, log: &mut BuildLog, stat: &mut StatCache)
        requires
            graph_wf(self@),
            eid < self@.edges.len(),
        ensures
            final(log).hashes() == logged(old(log).hashes(), self@, eid as int),
            final(log).path == old(log).path,
            final(stat).entries() == old(stat).entries().remove_keys(rewritten(self@, eid as int)),
            final(stat).dir() == old(stat).dir(),
    {
        let ghost g = self@;
        let ghost lg0 = log.hashes();
        let ghost st0 = stat.entries();
        let edge = &self.edges[eid];
        assert(g.edges[eid as int] == edge@);
        let ghost ops = out_paths(g, eid as int);
        let h = edge.command_hash;
        let mut i: usize = 0;
        assert(lg0.union_prefer_right(Map::new(|k: Seq<char>| ops.take(0).contains(k), |k: Seq<char>| h)) =~= lg0);
        assert(st0.remove_keys(ops.take(0).to_set()) =~= st0);
        while i < edge.outs.len()
            invariant
                g == self@,
                eid < g.edges.len(),
                edge@ == g.edges[eid as int],
                graph_wf(g),
                h == edge.command_hash,
                ops == out_paths(g, eid as int),
                i <= edge.outs@.len(),
                log.path == old(log).path,
                stat.dir() == old(stat).dir(),
                log.hashes() == lg0.union_prefer_right(
                    Map::new(|k: Seq<char>| ops.take(i as int).contains(k), |k: Seq<char>| h),
                ),
                stat.entries() == st0.remove_keys(ops.take(i as int).to_set()),
            decreases edge.outs@.len() - i,
        {
            let o = edge.outs[i];
            assert(o < g.nodes.len()) by {
                assert(edges_ok(g));
                assert(ids_below(g.edges[eid as int].outs, g.nodes.len() as int));
            }
            let p = &self.nodes[o].path;
            assert(p@ == ops[i as int]);
            log.set(p.as_str(), h);
            stat.invalidate(p.as_str());
            let ghost t0 = ops.take(i as int);
            let ghost t1 = ops.take(i + 1);
            assert(t1 =~= t0.push(ops[i as int]));
            assert forall|k: Seq<char>| #[trigger] t1.contains(k) <==> t0.contains(k) || k == ops[i as int] by {
                if t1.contains(k) && k != ops[i as int] {
                    let j = choose|j: int| 0 <= j < t1.len() && t1[j] == k;
                    assert(t0[j] == k);
                }
                if t0.contains(k) {
                    let j = choose|j: int| 0 <= j < t0.len() && t0[j] == k;
                    assert(t1[j] == k);
                }
                if k == ops[i as int] {
                    assert(t1[i as int] == k);
                }
            }
            assert(log.hashes() =~= lg0.union_prefer_right(
                Map::new(|k: Seq<char>| t1.contains(k), |k: Seq<char>| h),
            ));
            assert(t1.to_set() =~= t0.to_set().insert(ops[i as int])) by {
                t0.lemma_push_to_set_commute(ops[i as int]);
            }
            assert(stat.entries() =~= st0.remove_keys(ops.take(i + 1).to_set()));
            i = i + 1;
        }
        assert(ops.take(edge.outs@.len() as int) =~= ops);
        if let Some(df) = &edge.depfile {
            stat.invalidate(df.as_str());
            assert(stat.entries() =~= st0.remove_keys(rewritten(g, eid as int)));
        } else {
            assert(stat.entries() =~= st0.remove_keys(rewritten(g, eid as int)));
        }
    }

    /// The full paths of edge `eid`'s outputs and depfile, whose directories
    /// must exist before it runs.
    pub fn job_paths(&self, eid: EdgeId) -> (r: Vec<String>)
        requires
            graph_wf(self@),
            eid < self@.edges.len(),
        ensures
            views(r@) == job_paths_spec(self@, eid as int),
    {
        let ghost g = self@;
        let edge = &self.edges[eid];
        assert(g.edges[eid as int] == edge@);
        let ghost fulls = out_paths(g, eid as int).map_values(|p: Seq<char>| joined(g.workdir, p));
        let mut r: Vec<String> = Vec::new();
        let mut i: usize = 0;
        while i < edge.outs.len()
            invariant
                g == self@,
                eid < g.edges.len(),
                edge@ == g.edges[eid as int],
                graph_wf(g),
                fulls == out_paths(g, eid as int).map_values(|p: Seq<char>| joined(g.workdir, p)),
                i <= edge.outs@.len(),
                views(r@) == fulls.take(i as int),
            decreases edge.outs@.len() - i,
        {
            let o = edge.outs[i];
            assert(o < g.nodes.len()) by {
                assert(edges_ok(g));
                assert(ids_below(g.edges[eid as int].outs, g.nodes.len() as int));
            }
            let full = crate::files::join_path(self.workdir.as_str(), self.nodes[o].path.as_str());
            let ghost before = views(r@);
            r.push(full);
            assert(views(r@) =~= before.push(fulls[i as int]));
            assert(fulls.take(i + 1) =~= fulls.take(i as int).push(fulls[i as int]));
            i = i + 1;
        }
        assert(fulls.take(edge.outs@.len() as int) =~= fulls);
        if let Some(df) = &edge.depfile {
            let full = crate::files::join_path(self.workdir.as_str(), df.as_str());
            let ghost before = views(r@);
            r.push(full);
            assert(views(r@) =~= before.push(joined(g.workdir, df@)));
        }
        r
    }
}

/// `[idx/total]`, with `idx` right-aligned to the width of `total`.
pub fn progress_prefix(idx: usize, total: usize) -> (r: String)
    ensures
        r@ == progress_text(idx as nat, total as nat),
{
    let t = decimal_string(total as u128);
    let d = decimal_string(idx as u128);
    let tc = crate::strutil::chars_of(t.as_str());
    let dc = crate::strutil::chars_of(d.as_str());
    let mut r = String::new();
    push_str(&mut r, "[");
    let ghost start = r@;
    let mut k: usize = dc.len();
    while k < tc.len()
        invariant
            dc@ == decimal(idx as nat),
            tc@ == decimal(total as nat),
            dc@.len() <= k,
            dc@.len() <= tc@.len() ==> k <= tc@.len(),
            k <= tc@.len() ==> r@ == start + Seq::new((k - dc@.len()) as nat, |i: int| ' '),
            k > tc@.len() ==> r@ == start,
            start == "["@,
        decreases tc@.len() - k,
    {
        let ghost before = r@;
        push_char(&mut r, ' ');
        assert(Seq::new((k + 1 - dc@.len()) as nat, |i: int| ' ') =~= Seq::new((k - dc@.len()) as nat, |i: int| ' ').push(' '));
        k = k + 1;
    }
    proof {
        if dc@.len() >= tc@.len() {
            assert(r@ =~= "["@);
        } else {
            assert(r@ =~= "["@ + Seq::new((tc@.len() - dc@.len()) as nat, |i: int| ' '));
        }
    }
    push_str(&mut r, d.as_str());
    push_str(&mut r, "/");
    push_str(&mut r, t.as_str());
    push_str(&mut r, "]");
    proof {
        if dc@.len() >= tc@.len() {
            assert(r@ =~= progress_text(idx as nat, total as nat));
        } else {
            assert(r@ =~= progress_text(idx as nat, total as nat));
        }
    }
    r
}

/// The report of a failed command.
pub fn failure_message(command: &str, output: &str) -> (r: String)
    ensures
        r@ == failure_text(command@, output@),
{
    let mut m = String::new();
    push_str(&mut m, "FAILED: ");
    push_str(&mut m, command);
    push_str(&mut m, "\n");
    push_str(&mut m, output);
    let mc = crate::strutil::chars_of(m.as_str());
    if !(mc.len() > 0 && mc[mc.len() - 1] == '\n') {
        push_char(&mut m, '\n');
    }
    m
}


// ---------------------------------------------------------------------------
// The end of a run
pub open spec fn failed_msg(failed: nat) -> Seq<char> {
    decimal(failed) + " job(s) failed"@
}

/// How many workers run the jobs: as many as asked for, at least one, and
/// no more than there are jobs.
pub fn worker_count(requested: usize, total: usize) -> (r: usize)
    requires
        total > 0,
    ensures
        r == if requested < 1 {
            1
        } else if requested > total {
            total
        } else {
            requested
        },
        1 <= r <= total,
{
    let j = if requested < 1 {
        1
    } else {
        requested
    };
    if j > total {
        total
    } else {
        j
    }
}

/// What a run of the dirty jobs comes to: an error when a job failed, else
/// the count of jobs run.
pub fn build_outcome(ran: usize, failed: usize, elapsed_ms: u128) -> (r: Result<BuildResult>)
    ensures
        r is Err <==> failed > 0,
        r matches Err(e) ==> e@ == build_error(failed_msg(failed as nat)),
        r matches Ok(b) ==> b.ran == ran && b.failed == 0 && b.elapsed_ms == elapsed_ms
            && !b.nothing_to_do,
{
    if failed > 0 {
        let mut msg = decimal_string(failed as u128);
        push_str(&mut msg, " job(s) failed");
        Err(KageError::build(msg))
    } else {
        Ok(BuildResult { ran, failed: 0, elapsed_ms, nothing_to_do: false })
    }
}

/// A plan with no dirty edge has nothing to do: the run stops there and
/// reports so.
pub fn nothing_to_do(plan: &Plan) -> (r: bool)
    ensures
        r == (plan@.dirty.len() == 0),
{
    plan.dirty.len() == 0
}

/// The result of a run that had nothing to do, or that only listed or
/// printed.
pub fn idle_outcome(elapsed_ms: u128) -> (r: BuildResult)
    ensures
        r.ran == 0 && r.failed == 0 && r.elapsed_ms == elapsed_ms && r.nothing_to_do,
{
    BuildResult { ran: 0, failed: 0, elapsed_ms, nothing_to_do: true }
}

/// The result of `--clean`: how many outputs were removed.
pub fn clean_outcome(removed: usize) -> (r: BuildResult)
    ensures
        r.ran == removed && r.failed == 0 && r.elapsed_ms == 0 && r.nothing_to_do == (removed == 0),
{
    BuildResult { ran: removed, failed: 0, elapsed_ms: 0, nothing_to_do: removed == 0 }
}


// ---------------------------------------------------------------------------
// Reading an escaped text back
/// The text a JSON parser reads from the inside of a string literal `t`
/// (RFC 8259): `\"`, `\\`, `\/`, `\b`, `\f`, `\n`, `\r`, `\t` and `\uXXXX`
/// escapes; an unescaped `"` or a raw character below U+0020 is no string
/// (`None`).  A `\u` escape of a surrogate, which needs its pair, is left
/// out here: no escape of `json_escape` writes one.
pub open spec fn json_decoded(t: Seq<char>) -> Option<Seq<char>>
    decreases t.len(),
{
    if t.len() == 0 {
        Some(seq![])
    } else {
        let c = t[0];
        if c == '"' || (c as int) < 0x20 {
            None
        } else if c != '\\' {
            prepend_char(c, json_decoded(t.drop_first()))
        } else if t.len() < 2 {
            None
        } else {
            let e = t[1];
            if e == '"' || e == '\\' || e == '/' {
                prepend_char(e, json_decoded(t.skip(2)))
            } else if e == 'b' {
                prepend_char('\u{8}', json_decoded(t.skip(2)))
            } else if e == 'f' {
                prepend_char('\u{c}', json_decoded(t.skip(2)))
            } else if e == 'n' {
                prepend_char('\n', json_decoded(t.skip(2)))
            } else if e == 'r' {
                prepend_char('\r', json_decoded(t.skip(2)))
            } else if e == 't' {
                prepend_char('\t', json_decoded(t.skip(2)))
            } else if e == 'u' && t.len() >= 6 && crate::buildlog::all_hex(t.subrange(2, 6)) {
                let v = crate::buildlog::hex_value(t.subrange(2, 6));
                if 0xD800 <= v <= 0xDFFF {
                    None
                } else {
                    prepend_char(v as char, json_decoded(t.skip(6)))
                }
            } else {
                None
            }
        }
    }
}

/// `c` in front of what `o` holds.
pub open spec fn prepend_char(c: char, o: Option<Seq<char>>) -> Option<Seq<char>> {
    match o {
        Some(x) => Some(seq![c] + x),
        None => None,
    }
}

proof fn lemma_json_escaped_concat(a: Seq<char>, b: Seq<char>)
    ensures
        json_escaped(a + b) == json_escaped(a) + json_escaped(b),
    decreases b.len(),
{
    if b.len() == 0 {
        assert(a + b =~= a);
        assert(json_escaped(a) + json_escaped(b) =~= json_escaped(a));
    } else {
        lemma_json_escaped_concat(a, b.drop_last());
        assert((a + b).drop_last() =~= a + b.drop_last());
        assert((a + b).last() == b.last());
        assert(json_escaped(a + b) =~= json_escaped(a) + json_escaped(b));
    }
}

proof fn lemma_json_char_decoded(c: char, r: Seq<char>)
    ensures
        json_decoded(json_char(c) + r) == prepend_char(c, json_decoded(r)),
        forall|i: int| 0 <= i < json_char(c).len() ==> !is_control(#[trigger] json_char(c)[i]),
{
    let t = json_char(c) + r;
    if c == '"' || c == '\\' || c == '\n' || c == '\r' || c == '\t' {
        assert(t[0] == '\\');
        assert(t.skip(2) =~= r);
    } else if is_control(c) {
        let n = (c as u32) as nat;
        assert(n <= 0x9f);
        let h = hex4(n);
        assert(n / 4096 == 0 && n / 256 == 0);
        crate::buildlog::lemma_hex_digit_value(0);
        crate::buildlog::lemma_hex_digit_value((n / 16) % 16);
        crate::buildlog::lemma_hex_digit_value(n % 16);
        assert(t.subrange(2, 6) =~= h);
        assert(t.skip(6) =~= r);
        assert(t[0] == '\\' && t[1] == 'u');
        assert(crate::buildlog::all_hex(h));
        assert(h.drop_last().drop_last().drop_last().drop_last() =~= Seq::<char>::empty());
        assert((n / 4096) % 16 == 0 && (n / 256) % 16 == 0 && (n / 16) % 16 == n / 16);
        reveal_with_fuel(crate::buildlog::hex_value, 5);
        assert(h.drop_last().drop_last().drop_last().last() == h[0]);
        assert(h.drop_last().drop_last().last() == h[1]);
        assert(h.drop_last().last() == h[2]);
        assert(h.last() == h[3]);
        assert(crate::buildlog::hex_value(h) == 16 * (n / 16) + n % 16);
        assert(crate::buildlog::hex_value(h) == n);
        assert((n as int) as char == c);
    } else {
        assert(t[0] == c);
        assert(t.drop_first() =~= r);
    }
}

/// What `json_escape` writes reads back, inside a JSON string literal, as
/// the text it was given, and holds no raw control character.
pub proof fn lemma_json_escape_reads_back(s: Seq<char>)
    ensures
        json_decoded(json_escaped(s)) == Some(s),
        forall|i: int| 0 <= i < json_escaped(s).len() ==> !is_control(#[trigger] json_escaped(s)[i]),
    decreases s.len(),
{
    if s.len() > 0 {
        let c = s[0];
        let tail = s.drop_first();
        assert(s =~= seq![c] + tail);
        lemma_json_escaped_concat(seq![c], tail);
        assert(seq![c].drop_last() =~= Seq::<char>::empty());
        assert(seq![c].last() == c);
        assert(json_escaped(Seq::<char>::empty()) =~= Seq::<char>::empty());
        assert(json_escaped(seq![c]) =~= json_char(c));
        lemma_json_escape_reads_back(tail);
        lemma_json_char_decoded(c, json_escaped(tail));
        assert(seq![c] + tail =~= s);
        let e = json_escaped(s);
        assert forall|i: int| 0 <= i < e.len() implies !is_control(#[trigger] e[i]) by {
            if i < json_char(c).len() {
                assert(e[i] == json_char(c)[i]);
            } else {
                assert(e[i] == json_escaped(tail)[i - json_char(c).len()]);
            }
        }
    }
}

} // verus!
