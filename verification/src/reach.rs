//! The reachability engine: a breadth-first search over the product automaton
//! of (vertex, edge-type, color) states, driven by a compiled rule table.
//!
//! The search visits every state reachable from the declared start states
//! through rule-admitted transitions, and returns each vertex that is visited
//! in an output-qualifying (edge, color) state, once.

use vstd::prelude::*;

use crate::array_nd::{filled_vec, Array2D, Array3D};
use crate::expression::eval_expr;
use crate::instance::{
    graph_arc, max_row_len, set_has, lemma_max_row_len, lemma_members_below_iff, members_below,
    Graph, Sets,
};
use crate::ruletable::{
    admissible_colors, first_match, lemma_admissible_colors_iff, Ruletable,
};
use crate::strutil::{dec_spec, decimal_string};

verus! {

/// Configuration for one run of the search.
#[derive(Debug)]
pub struct Settings {
    /// Collect a trace of the search when set.
    pub verbose: bool,
    /// Render vertices one-indexed in the trace when set.
    pub fmt_one_indexed: bool,
}

impl Settings {
    /// A settings value with the given verbosity and vertex numbering.
    pub fn new(verbose: bool, fmt_one_indexed: bool) -> (r: Self)
        ensures
            r.verbose == verbose,
            r.fmt_one_indexed == fmt_one_indexed,
    {
        Self { verbose, fmt_one_indexed }
    }
}

impl Default for Settings {
    fn default() -> (r: Self)
        ensures
            !r.verbose,
            !r.fmt_one_indexed,
    {
        Self { verbose: false, fmt_one_indexed: false }
    }
}

/// One search state: a vertex together with the edge type it was entered by
/// and the current color.
#[derive(Clone, Copy, Debug, PartialEq, Eq, Structural)]
pub struct State {
    pub node: usize,
    pub edge: usize,
    pub color: usize,
}

impl State {
    /// Renders a vertex id in decimal, one-indexed when the settings ask for
    /// it.
    pub fn convert_node_to_string(u: usize, settings: &Settings) -> (r: String)
        ensures
            r@ == if settings.fmt_one_indexed && u < usize::MAX {
                dec_spec(u + 1)
            } else {
                dec_spec(u as int)
            },
    {
        if settings.fmt_one_indexed && u < usize::MAX {
            decimal_string(u + 1)
        } else {
            decimal_string(u)
        }
    }

    /// Renders one state for the trace: the vertex with its edge and color
    /// names; a table without declared colors shows vertex and edge only.
    /// The trace is a side channel and carries no semantic contract.
    pub fn convert_to_string(&self, ruletable: &Ruletable, settings: &Settings) -> (r: String)
        requires
            ruletable.wf(),
            self.edge < ruletable.num_edges_spec(),
            ruletable.colors_spec().len() > 0 ==> self.color < ruletable.colors_spec().len(),
    {
        let edge_strings = ruletable.get_edge_strings();
        let color_strings = ruletable.get_color_strings();
        let node = Self::convert_node_to_string(self.node, settings);
        if color_strings.len() == 0 {
            let mut r = String::from_str("(");
            r.append(node.as_str());
            r.append(", ");
            r.append(edge_strings[self.edge].as_str());
            r.append(")");
            r
        } else {
            let mut r = String::new();
            r.append(node.as_str());
            r.append(", ");
            r.append(edge_strings[self.edge].as_str());
            r.append(", ");
            r.append(color_strings[self.color].as_str());
            r
        }
    }

    /// Renders one admitted transition for the trace, via the display names
    /// of both states' edges and colors.  The trace is a side channel and
    /// carries no semantic contract.
    pub fn convert_transition_to_string(
        &self, next: &State, ruletable: &Ruletable, settings: &Settings,
    ) -> (r: String)
        requires
            ruletable.wf(),
            self.edge < ruletable.num_edges_spec(),
            next.edge < ruletable.num_edges_spec(),
            ruletable.colors_spec().len() > 0 ==> self.color < ruletable.colors_spec().len()
                && next.color < ruletable.colors_spec().len(),
    {
        let edge_strings = ruletable.get_edge_strings();
        let color_strings = ruletable.get_color_strings();
        let node1 = Self::convert_node_to_string(self.node, settings);
        let node2 = Self::convert_node_to_string(next.node, settings);
        let mut r = String::new();
        r.append(edge_strings[self.edge].as_str());
        if color_strings.len() > 0 {
            r.append(" [");
            r.append(color_strings[self.color].as_str());
            r.append("]");
        }
        r.append(" ");
        r.append(node1.as_str());
        r.append(" ");
        r.append(edge_strings[next.edge].as_str());
        if color_strings.len() > 0 {
            r.append(" [");
            r.append(color_strings[next.color].as_str());
            r.append("]");
        }
        r.append(" ");
        r.append(node2.as_str());
        r
    }
}

/// The state lies inside a store of `w` vertices, `ne` edge types and `nc`
/// colors.
pub open spec fn in_space(s: State, w: int, ne: int, nc: int) -> bool {
    s.node < w && s.edge < ne && s.color < nc
}

/// The transition from `s1` to `s2` is admitted through the `q`-th arc
/// leaving `s1.node`: the arc reaches `s2.node` with label `s2.edge`, some
/// rule governs the transition shape, and its guard holds of the endpoints.
pub open spec fn step_via(
    rt: &Ruletable, g: &Graph, rows: Seq<Seq<bool>>, s1: State, s2: State, q: int,
) -> bool {
    &&& 0 <= q < g.neighbors_spec(s1.node as int).len()
    &&& g.neighbors_spec(s1.node as int)[q] == (s2.node, s2.edge)
    &&& s2.color < rt.num_colors_spec()
    &&& first_match(rt.rules_spec(), s1.edge, s1.color, s2.edge, s2.color) is Some
    &&& eval_expr(
        rt.rules_spec()[first_match(
            rt.rules_spec(), s1.edge, s1.color, s2.edge, s2.color,
        )->Some_0].expression,
        rows, s1.node as int, s2.node as int,
    )
}

/// The search may move from `s1` to `s2`.
pub open spec fn step(rt: &Ruletable, g: &Graph, rows: Seq<Seq<bool>>, s1: State, s2: State)
    -> bool {
    s1.node < g.n_spec() && exists|q: int| step_via(rt, g, rows, s1, s2, q)
}

/// The state is seeded by some declared start triple: its edge and color are
/// the triple's, and its vertex is a member of the triple's set.
pub open spec fn is_start(rt: &Ruletable, rows: Seq<Seq<bool>>, s: State) -> bool {
    exists|t: int|
        0 <= t < rt.start_spec().len() && (#[trigger] rt.start_spec()[t]).1 == s.edge
            && rt.start_spec()[t].2 == s.color && set_has(
            rows, rt.start_spec()[t].0 as int, s.node as int,
        )
}

/// A run of the automaton: it begins in a start state and each later state
/// follows from its predecessor by one admitted transition.
pub open spec fn is_path(rt: &Ruletable, g: &Graph, rows: Seq<Seq<bool>>, p: Seq<State>) -> bool {
    p.len() >= 1 && is_start(rt, rows, p[0]) && forall|i: int|
        0 <= i < p.len() - 1 ==> step(rt, g, rows, #[trigger] p[i], p[i + 1])
}

/// The state is reached from some start state through admitted transitions.
pub open spec fn reachable(rt: &Ruletable, g: &Graph, rows: Seq<Seq<bool>>, s: State) -> bool {
    exists|p: Seq<State>| #[trigger] is_path(rt, g, rows, p) && p.last() == s
}

/// A start state is reachable: it ends a one-state run.
pub proof fn lemma_reachable_start(rt: &Ruletable, g: &Graph, rows: Seq<Seq<bool>>, s: State)
    requires
        is_start(rt, rows, s),
    ensures
        reachable(rt, g, rows, s),
{
    let p: Seq<State> = seq![s];
    assert(p[0] == s);
    assert(is_path(rt, g, rows, p));
    assert(p.last() == s);
}

/// One admitted transition out of a reachable state reaches its target.
pub proof fn lemma_reachable_step(
    rt: &Ruletable, g: &Graph, rows: Seq<Seq<bool>>, s1: State, s2: State,
)
    requires
        reachable(rt, g, rows, s1),
        step(rt, g, rows, s1, s2),
    ensures
        reachable(rt, g, rows, s2),
{
    let p = choose|p: Seq<State>| #[trigger] is_path(rt, g, rows, p) && p.last() == s1;
    let p2 = p.push(s2);
    assert(p2[0] == p[0]);
    assert forall|i: int| 0 <= i < p2.len() - 1 implies step(
        rt, g, rows, #[trigger] p2[i], p2[i + 1],
    ) by {
        if i < p.len() - 1 {
            assert(p2[i] == p[i]);
            assert(p2[i + 1] == p[i + 1]);
        } else {
            assert(p2[i] == p.last());
            assert(p2[i + 1] == s2);
        }
    }
    assert(is_path(rt, g, rows, p2));
    assert(p2.last() == s2);
}

/// A step is one arc of the graph together with a governing rule whose
/// guard holds: the graph enters only through its arc relation.
pub proof fn lemma_step_iff_arc(
    rt: &Ruletable, g: &Graph, rows: Seq<Seq<bool>>, s1: State, s2: State,
)
    ensures
        step(rt, g, rows, s1, s2) <==> ({
            &&& s1.node < g.n_spec()
            &&& graph_arc(g, s1.node, s2.node, s2.edge)
            &&& s2.color < rt.num_colors_spec()
            &&& first_match(rt.rules_spec(), s1.edge, s1.color, s2.edge, s2.color) is Some
            &&& eval_expr(
                rt.rules_spec()[first_match(
                    rt.rules_spec(), s1.edge, s1.color, s2.edge, s2.color,
                )->Some_0].expression,
                rows, s1.node as int, s2.node as int,
            )
        }),
{
    if step(rt, g, rows, s1, s2) {
        let q = choose|q: int| step_via(rt, g, rows, s1, s2, q);
        assert(g.neighbors_spec(s1.node as int)[q] == (s2.node, s2.edge));
        assert(graph_arc(g, s1.node, s2.node, s2.edge));
    }
    if s1.node < g.n_spec() && graph_arc(g, s1.node, s2.node, s2.edge) && s2.color
        < rt.num_colors_spec() && first_match(
        rt.rules_spec(), s1.edge, s1.color, s2.edge, s2.color,
    ) is Some && eval_expr(
        rt.rules_spec()[first_match(
            rt.rules_spec(), s1.edge, s1.color, s2.edge, s2.color,
        )->Some_0].expression,
        rows, s1.node as int, s2.node as int,
    ) {
        let q = choose|q: int|
            0 <= q < g.neighbors_spec(s1.node as int).len() && #[trigger] g.neighbors_spec(
                s1.node as int,
            )[q] == (s2.node, s2.edge);
        assert(step_via(rt, g, rows, s1, s2, q));
    }
}

/// The reachable states depend on the graph only through its vertex count
/// and its arc relation: two graphs agreeing on both reach the same states,
/// whatever order their arcs are stored in.  With the search's postcondition
/// this makes the result of `reach` a set that does not depend on the order
/// in which edge lists, edges or set members were handed over.
pub proof fn lemma_reachable_order_independent(
    rt: &Ruletable, g1: &Graph, g2: &Graph, rows: Seq<Seq<bool>>, s: State,
)
    requires
        g1.n_spec() == g2.n_spec(),
        forall|u: usize, v: usize, t: usize|
            #[trigger] graph_arc(g1, u, v, t) <==> #[trigger] graph_arc(g2, u, v, t),
    ensures
        reachable(rt, g1, rows, s) <==> reachable(rt, g2, rows, s),
{
    assert forall|s1: State, s2: State|
        #[trigger] step(rt, g1, rows, s1, s2) <==> #[trigger] step(rt, g2, rows, s1, s2) by {
        lemma_step_iff_arc(rt, g1, rows, s1, s2);
        lemma_step_iff_arc(rt, g2, rows, s1, s2);
        assert(graph_arc(g1, s1.node, s2.node, s2.edge) <==> graph_arc(
            g2, s1.node, s2.node, s2.edge,
        ));
    }
    if reachable(rt, g1, rows, s) {
        let p = choose|p: Seq<State>| #[trigger] is_path(rt, g1, rows, p) && p.last() == s;
        assert forall|i: int| 0 <= i < p.len() - 1 implies step(
            rt, g2, rows, #[trigger] p[i], p[i + 1],
        ) by {
            assert(step(rt, g1, rows, p[i], p[i + 1]));
        }
        assert(is_path(rt, g2, rows, p));
    }
    if reachable(rt, g2, rows, s) {
        let p = choose|p: Seq<State>| #[trigger] is_path(rt, g2, rows, p) && p.last() == s;
        assert forall|i: int| 0 <= i < p.len() - 1 implies step(
            rt, g1, rows, #[trigger] p[i], p[i + 1],
        ) by {
            assert(step(rt, g2, rows, p[i], p[i + 1]));
        }
        assert(is_path(rt, g1, rows, p));
    }
}

/// The (edge, color) pair qualifies a visited vertex for the result.
pub open spec fn output_pair(rt: &Ruletable, e: usize, c: usize) -> bool {
    exists|t: int| 0 <= t < rt.output_spec().len() && #[trigger] rt.output_spec()[t] == (e, c)
}

/// The store records the state as visited.
pub open spec fn marked(st: Array3D<bool>, s: State) -> bool {
    st.entry(s.node as int, s.edge as int, s.color as int)
}

/// A step's target lies inside the search space.
pub proof fn lemma_step_target(
    rt: &Ruletable, g: &Graph, rows: Seq<Seq<bool>>, w: int, s1: State, s2: State,
)
    requires
        search_setup(rt, g, rows, w),
        step(rt, g, rows, s1, s2),
    ensures
        in_space(s2, w, rt.num_edges_spec() as int, rt.num_colors_spec() as int),
        s2.node < g.n_spec(),
{
    let q = choose|q: int| step_via(rt, g, rows, s1, s2, q);
    g.lemma_seps_monotone(s1.node as int, s1.node + 1);
    g.lemma_seps_monotone(s1.node + 1, g.n_spec() as int);
    let base = g.seps_spec()[s1.node as int] as int;
    assert(g.neighbors_spec(s1.node as int)[q] == g.vals_spec()[base + q]);
    assert(g.vals_spec()[base + q].0 < g.n_spec());
    assert(g.vals_spec()[base + q].1 < rt.num_edges_spec());
}

/// The structures of one search fit together: the table is well formed, the
/// graph's arc labels are its edge ids, the sets match its set id space, and
/// `w` covers both the graph's vertices and the sets' members.
pub open spec fn search_setup(
    rt: &Ruletable, g: &Graph, rows: Seq<Seq<bool>>, w: int,
) -> bool {
    &&& rt.wf()
    &&& g.wf()
    &&& g.labels_below(rt.num_edges_spec() as int)
    &&& rows.len() == rt.num_sets_spec()
    &&& g.n_spec() <= w
    &&& max_row_len(rows) <= w
}

/// A start state lies inside the search space.
pub proof fn lemma_start_in_space(rt: &Ruletable, rows: Seq<Seq<bool>>, w: int, s: State)
    requires
        rt.wf(),
        rows.len() == rt.num_sets_spec(),
        max_row_len(rows) <= w,
        is_start(rt, rows, s),
    ensures
        in_space(s, w, rt.num_edges_spec() as int, rt.num_colors_spec() as int),
{
    lemma_max_row_len(rows);
    let t = choose|t: int|
        0 <= t < rt.start_spec().len() && (#[trigger] rt.start_spec()[t]).1 == s.edge
            && rt.start_spec()[t].2 == s.color && set_has(
            rows, rt.start_spec()[t].0 as int, s.node as int,
        );
    assert(rows[rt.start_spec()[t].0 as int].len() <= max_row_len(rows));
}

/// Every reachable state lies inside the search space.
pub proof fn lemma_reachable_in_space(
    rt: &Ruletable, g: &Graph, rows: Seq<Seq<bool>>, w: int, s: State,
)
    requires
        search_setup(rt, g, rows, w),
        reachable(rt, g, rows, s),
    ensures
        in_space(s, w, rt.num_edges_spec() as int, rt.num_colors_spec() as int),
{
    let p = choose|p: Seq<State>| #[trigger] is_path(rt, g, rows, p) && p.last() == s;
    if p.len() == 1 {
        assert(p[0] == s);
        lemma_start_in_space(rt, rows, w, s);
    } else {
        let i = p.len() - 2;
        assert(step(rt, g, rows, p[i], p[i + 1]));
        assert(p[i + 1] == s);
        lemma_step_target(rt, g, rows, w, p[i], s);
    }
}

/// Every visited state is reachable.
pub open spec fn sound_inv(
    rt: &Ruletable, g: &Graph, rows: Seq<Seq<bool>>, st: Array3D<bool>, w: int,
) -> bool {
    forall|s: State|
        in_space(s, w, rt.num_edges_spec() as int, rt.num_colors_spec() as int) && #[trigger]
        marked(st, s) ==> reachable(rt, g, rows, s)
}

/// Every start state is visited.
pub open spec fn starts_marked(rt: &Ruletable, rows: Seq<Seq<bool>>, st: Array3D<bool>) -> bool {
    forall|s: State| #[trigger] is_start(rt, rows, s) ==> marked(st, s)
}

/// The states of the queue from position `head` on still await expansion.
pub open spec fn active_has(q: Seq<State>, head: int, s: State) -> bool {
    exists|i: int| head <= i < q.len() && q[i] == s
}

/// Every queued state is visited and has a vertex of the graph.
pub open spec fn queue_inv(
    g: &Graph, st: Array3D<bool>, w: int, ne: int, nc: int, q: Seq<State>,
) -> bool {
    forall|i: int|
        0 <= i < q.len() ==> in_space(#[trigger] q[i], w, ne, nc) && marked(st, q[i])
            && q[i].node < g.n_spec()
}

/// Every visited state no longer awaiting expansion, except `s1`, has all
/// its admitted transitions visited.
pub open spec fn expanded_except(
    rt: &Ruletable, g: &Graph, rows: Seq<Seq<bool>>, st: Array3D<bool>, w: int,
    q: Seq<State>, head: int, s1: State, except: bool,
) -> bool {
    forall|s: State, s2: State|
        in_space(s, w, rt.num_edges_spec() as int, rt.num_colors_spec() as int) && #[trigger]
        marked(st, s) && !active_has(q, head, s) && !(except && s == s1) && #[trigger] step(
            rt, g, rows, s, s2,
        ) ==> marked(st, s2)
}

/// Every visited state no longer awaiting expansion has all its admitted
/// transitions visited.
pub open spec fn expand_inv(
    rt: &Ruletable, g: &Graph, rows: Seq<Seq<bool>>, st: Array3D<bool>, w: int,
    q: Seq<State>, head: int,
) -> bool {
    expanded_except(
        rt, g, rows, st, w, q, head, State { node: 0, edge: 0, color: 0 }, false,
    )
}

/// Some visited, output-qualifying state has vertex `v`.
pub open spec fn res_entry_justified(rt: &Ruletable, st: Array3D<bool>, w: int, v: usize) -> bool {
    exists|s: State|
        in_space(s, w, rt.num_edges_spec() as int, rt.num_colors_spec() as int)
            && #[trigger] marked(st, s) && s.node == v && output_pair(rt, s.edge, s.color)
}

/// The result list `res` and its membership mask `added` agree: no vertex
/// twice, every listed vertex visited in an output-qualifying state, and a
/// vertex is masked exactly when listed.
pub open spec fn result_inv(
    rt: &Ruletable, st: Array3D<bool>, w: int, added: Seq<bool>, res: Seq<usize>,
) -> bool {
    &&& added.len() == w
    &&& forall|i: int| 0 <= i < res.len() ==> (#[trigger] res[i]) < w && added[res[i] as int]
    &&& forall|v: usize| v < w && added[v as int] ==> #[trigger] res.contains(v)
    &&& forall|i: int, j: int| 0 <= i < j < res.len() ==> res[i] != res[j]
    &&& forall|i: int|
        0 <= i < res.len() ==> res_entry_justified(rt, st, w, #[trigger] res[i])
}

/// Every visited, output-qualifying state that no longer awaits expansion
/// already put its vertex into the result.
pub open spec fn out_complete_inv(
    rt: &Ruletable, st: Array3D<bool>, w: int, q: Seq<State>, head: int, added: Seq<bool>,
) -> bool {
    forall|s: State|
        in_space(s, w, rt.num_edges_spec() as int, rt.num_colors_spec() as int) && #[trigger]
        marked(st, s) && output_pair(rt, s.edge, s.color) && !active_has(q, head, s)
            ==> added[s.node as int]
}

/// A visited store that holds every start state and is closed under
/// expansion holds every state that ends a run.
proof fn lemma_path_marked(
    rt: &Ruletable, g: &Graph, rows: Seq<Seq<bool>>, st: Array3D<bool>, w: int, p: Seq<State>,
)
    requires
        search_setup(rt, g, rows, w),
        starts_marked(rt, rows, st),
        expand_inv(rt, g, rows, st, w, Seq::<State>::empty(), 0),
        is_path(rt, g, rows, p),
    ensures
        marked(st, p.last()),
    decreases p.len(),
{
    if p.len() == 1 {
        assert(p.last() == p[0]);
    } else {
        let q = p.drop_last();
        assert(q[0] == p[0]);
        assert forall|i: int| 0 <= i < q.len() - 1 implies step(
            rt, g, rows, #[trigger] q[i], q[i + 1],
        ) by {
            assert(q[i] == p[i]);
            assert(q[i + 1] == p[i + 1]);
        }
        assert(is_path(rt, g, rows, q));
        lemma_path_marked(rt, g, rows, st, w, q);
        let i = p.len() - 2;
        assert(step(rt, g, rows, p[i], p[i + 1]));
        assert(q.last() == p[i]);
        assert(is_path(rt, g, rows, q) && q.last() == p[i]);
        assert(reachable(rt, g, rows, p[i]));
        lemma_reachable_in_space(rt, g, rows, w, p[i]);
        assert(!active_has(Seq::<State>::empty(), 0, p[i]));
        assert(marked(st, p[i + 1]));
    }
}

/// A visited store closed under expansion holds every reachable state.
pub proof fn lemma_closure_complete(
    rt: &Ruletable, g: &Graph, rows: Seq<Seq<bool>>, st: Array3D<bool>, w: int, s: State,
)
    requires
        search_setup(rt, g, rows, w),
        starts_marked(rt, rows, st),
        expand_inv(rt, g, rows, st, w, Seq::<State>::empty(), 0),
        reachable(rt, g, rows, s),
    ensures
        marked(st, s),
{
    let p = choose|p: Seq<State>| #[trigger] is_path(rt, g, rows, p) && p.last() == s;
    lemma_path_marked(rt, g, rows, st, w, p);
}

/// Runs the search and collects its trace: the first component holds, as
/// `reach` promises, exactly the vertices reachable in an output-qualifying
/// state, each once.  When the settings ask for it, the second component
/// holds the trace lines: the initial states, one processing line per
/// expanded state, and one line per admitted transition, in discovery order.
/// The trace is a side channel and carries no semantic contract.
#[verifier::loop_isolation(false)]
#[verifier::rlimit(100)]
pub fn reach_trace(graph: &Graph, sets: &Sets, ruletable: &Ruletable, settings: &Settings) -> (r: (
    Vec<usize>,
    Vec<String>,
))
    requires
        ruletable.wf(),
        graph.wf(),
        graph.labels_below(ruletable.num_edges_spec() as int),
        sets.rows().len() == ruletable.num_sets_spec(),
        search_width(graph, sets.rows()) * ruletable.num_edges_spec() <= usize::MAX,
        search_width(graph, sets.rows()) * ruletable.num_edges_spec()
            * ruletable.num_colors_spec() <= usize::MAX,
    ensures
        forall|v: usize|
            #[trigger] r.0@.contains(v) <==> exists|e: usize, c: usize|
                reachable(ruletable, graph, sets.rows(), State { node: v, edge: e, color: c })
                    && #[trigger] output_pair(ruletable, e, c),
        forall|i: int, j: int| 0 <= i < j < r.0@.len() ==> r.0@[i] != r.0@[j],
{
    let ghost rows = sets.rows();
    let gn = graph.num_vertices();
    let ms = sets.max_size();
    let n = if gn > ms {
        gn
    } else {
        ms
    };
    let ne = ruletable.num_edges();
    let nc = ruletable.num_colors();
    let ghost w = n as int;
    let mut visited = Array3D::new_false(n, ne, nc);
    let mut queue: Vec<State> = Vec::new();

    let mut is_output = Array2D::new(ne, nc, false);
    let outputs = ruletable.outputs();
    let mut k: usize = 0;
    while k < outputs.len()
        invariant
            k <= ruletable.output_spec().len(),
            ruletable.wf(),
            outputs@ == ruletable.output_spec(),
            is_output.wf(),
            is_output.dims() == (ne, nc),
            ne == ruletable.num_edges_spec(),
            nc == ruletable.num_colors_spec(),
            forall|e: int, c: int|
                0 <= e < ne && 0 <= c < nc ==> (#[trigger] is_output.entry(e, c) <==> exists|t: int|
                    0 <= t < k && #[trigger] ruletable.output_spec()[t] == (e as usize, c as usize)),
        decreases outputs@.len() - k,
    {
        let pair = outputs[k];
        is_output.set_at(pair.0, pair.1, true);
        proof {
            assert forall|e: int, c: int| 0 <= e < ne && 0 <= c < nc implies (
                #[trigger] is_output.entry(e, c) <==> exists|t: int|
                    0 <= t < k + 1 && #[trigger] ruletable.output_spec()[t] == (
                        e as usize, c as usize,
                    )) by {
                if e == pair.0 && c == pair.1 {
                    assert(ruletable.output_spec()[k as int] == (e as usize, c as usize));
                } else {
                    if exists|t: int|
                        0 <= t < k && #[trigger] ruletable.output_spec()[t] == (
                            e as usize, c as usize,
                        ) {
                        let t = choose|t: int|
                            0 <= t < k && #[trigger] ruletable.output_spec()[t] == (
                                e as usize, c as usize,
                            );
                        assert(0 <= t < k + 1 && ruletable.output_spec()[t] == (
                            e as usize, c as usize,
                        ));
                    }
                    if exists|t: int|
                        0 <= t < k + 1 && #[trigger] ruletable.output_spec()[t] == (
                            e as usize, c as usize,
                        ) {
                        let t = choose|t: int|
                            0 <= t < k + 1 && #[trigger] ruletable.output_spec()[t] == (
                                e as usize, c as usize,
                            );
                        assert(t < k);
                    }
                }
            }
        }
        k = k + 1;
    }
    proof {
        assert forall|e: int, c: int| 0 <= e < ne && 0 <= c < nc implies (
            #[trigger] is_output.entry(e, c) == output_pair(
                ruletable, e as usize, c as usize,
            )) by {
        }
    }

    let mut trace: Vec<String> = Vec::new();
    if settings.verbose {
        let mut line = String::from_str("Initial States: ");
        let mut first: bool = true;
        let starts0 = ruletable.starts();
        let mut k0: usize = 0;
        while k0 < starts0.len()
            invariant
                k0 <= starts0@.len(),
                starts0@ == ruletable.start_spec(),
            decreases starts0@.len() - k0,
        {
            let trip = starts0[k0];
            proof {
                assert((ruletable.start_spec()[k0 as int]).0 < ruletable.num_sets_spec());
            }
            let elems0 = sets.elements(trip.0);
            let mut j0: usize = 0;
            while j0 < elems0.len()
                invariant
                    j0 <= elems0@.len(),
                    k0 < starts0@.len(),
                    starts0@ == ruletable.start_spec(),
                    trip == ruletable.start_spec()[k0 as int],
                decreases elems0@.len() - j0,
            {
                let st = State { node: elems0[j0], edge: trip.1, color: trip.2 };
                proof {
                    assert((ruletable.start_spec()[k0 as int]).1
                        < ruletable.num_edges_spec());
                }
                let piece = st.convert_to_string(ruletable, settings);
                if !first {
                    line.append(", ");
                }
                line.append(piece.as_str());
                first = false;
                j0 = j0 + 1;
            }
            k0 = k0 + 1;
        }
        trace.push(line);
    }

    let mut res: Vec<usize> = Vec::new();
    let mut added: Vec<bool> = filled_vec(n, false);

    let starts = ruletable.starts();
    let mut k: usize = 0;
    while k < starts.len()
        invariant
            k <= ruletable.start_spec().len(),
            search_setup(ruletable, graph, rows, w),
            rows == sets.rows(),
            w == n as int,
            ne == ruletable.num_edges_spec(),
            nc == ruletable.num_colors_spec(),
            starts@ == ruletable.start_spec(),
            visited.wf(),
            visited.dims() == (n, ne, nc),
            is_output.wf(),
            is_output.dims() == (ne, nc),
            forall|e: int, c: int|
                0 <= e < ne && 0 <= c < nc ==> #[trigger] is_output.entry(e, c) == output_pair(
                    ruletable, e as usize, c as usize,
                ),
            sound_inv(ruletable, graph, rows, visited, w),
            queue_inv(graph, visited, w, ne as int, nc as int, queue@),
            expand_inv(ruletable, graph, rows, visited, w, queue@, 0),
            result_inv(ruletable, visited, w, added@, res@),
            out_complete_inv(ruletable, visited, w, queue@, 0, added@),
            forall|s: State| is_start_upto(ruletable, rows, s, k as int) ==> marked(visited, s),
        decreases starts@.len() - k,
    {
        let trip = starts[k];
        let elems = sets.elements(trip.0);
        let ghost row = rows[trip.0 as int];
        proof {
            lemma_max_row_len(rows);
        }
        let mut j: usize = 0;
        while j < elems.len()
            invariant
                j <= elems@.len(),
                k < ruletable.start_spec().len(),
                trip == ruletable.start_spec()[k as int],
                row == rows[trip.0 as int],
                elems@ == members_below(row, row.len() as int),
                row.len() <= w,
                search_setup(ruletable, graph, rows, w),
                rows == sets.rows(),
                w == n as int,
                ne == ruletable.num_edges_spec(),
                nc == ruletable.num_colors_spec(),
                visited.wf(),
                visited.dims() == (n, ne, nc),
                is_output.wf(),
                is_output.dims() == (ne, nc),
                forall|e: int, c: int|
                    0 <= e < ne && 0 <= c < nc ==> #[trigger] is_output.entry(e, c)
                        == output_pair(ruletable, e as usize, c as usize),
                sound_inv(ruletable, graph, rows, visited, w),
                queue_inv(graph, visited, w, ne as int, nc as int, queue@),
                expand_inv(ruletable, graph, rows, visited, w, queue@, 0),
                result_inv(ruletable, visited, w, added@, res@),
                out_complete_inv(ruletable, visited, w, queue@, 0, added@),
                forall|s: State| is_start_upto(ruletable, rows, s, k as int) ==> marked(
                    visited, s,
                ),
                forall|q: int|
                    0 <= q < j ==> marked(
                        visited,
                        State { node: #[trigger] elems@[q], edge: trip.1, color: trip.2 },
                    ),
            decreases elems@.len() - j,
        {
            let v = elems[j];
            proof {
                assert(elems@.contains(elems@[j as int]));
                lemma_members_below_iff(row, row.len() as int, v);
                assert((v as int) < row.len());
            }
            let s = State { node: v, edge: trip.1, color: trip.2 };
            proof {
                assert((ruletable.start_spec()[k as int]).0 < ruletable.num_sets_spec());
                assert(in_space(s, w, ne as int, nc as int));
            }
            if !*visited.get(s.node, s.edge, s.color) {
                let ghost pre = visited;
                let ghost q_pre = queue@;
                let ghost added_pre = added@;
                let ghost res_pre = res@;
                visited.mark(s.node, s.edge, s.color);
                proof {
                    assert(is_start(ruletable, rows, s)) by {
                        assert((ruletable.start_spec()[k as int]).1 == s.edge
                            && ruletable.start_spec()[k as int].2 == s.color && set_has(
                            rows, ruletable.start_spec()[k as int].0 as int, s.node as int,
                        ));
                    }
                    lemma_reachable_start(ruletable, graph, rows, s);
                }
                if s.node >= graph.num_vertices() {
                    let out_here = *is_output.get(s.edge, s.color);
                    if !added[s.node] && out_here {
                        res.push(s.node);
                        added.set(s.node, true);
                        proof {
                            lemma_invs_after_mark(
                                ruletable, graph, rows, pre, visited, w, q_pre, queue@,
                                0, s, added_pre, res_pre, added@, res@,
                                s, false, false, true,
                            );
                            assert forall|sx: State| is_start_upto(
                                ruletable, rows, sx, k as int,
                            ) implies marked(visited, sx) by {
                                assert(marked(pre, sx));
                                assert(is_start(ruletable, rows, sx));
                                lemma_start_in_space(ruletable, rows, w, sx);
                            }
                            assert forall|q: int| 0 <= q < j implies marked(
                                visited,
                                State { node: #[trigger] elems@[q], edge: trip.1, color: trip.2 },
                            ) by {
                                let sx = State { node: elems@[q], edge: trip.1, color: trip.2 };
                                assert(marked(pre, sx));
                                assert(elems@.contains(elems@[q]));
                                lemma_members_below_iff(row, row.len() as int, elems@[q]);
                                assert(in_space(sx, w, ne as int, nc as int));
                            }
                        }
                    } else {
                        proof {
                            lemma_invs_after_mark(
                                ruletable, graph, rows, pre, visited, w, q_pre, queue@,
                                0, s, added_pre, res_pre, added@, res@,
                                s, false, false, false,
                            );
                            assert forall|sx: State| is_start_upto(
                                ruletable, rows, sx, k as int,
                            ) implies marked(visited, sx) by {
                                assert(marked(pre, sx));
                                assert(is_start(ruletable, rows, sx));
                                lemma_start_in_space(ruletable, rows, w, sx);
                            }
                            assert forall|q: int| 0 <= q < j implies marked(
                                visited,
                                State { node: #[trigger] elems@[q], edge: trip.1, color: trip.2 },
                            ) by {
                                let sx = State { node: elems@[q], edge: trip.1, color: trip.2 };
                                assert(marked(pre, sx));
                                assert(elems@.contains(elems@[q]));
                                lemma_members_below_iff(row, row.len() as int, elems@[q]);
                                assert(in_space(sx, w, ne as int, nc as int));
                            }
                        }
                    }
                } else {
                    queue.push(s);
                    proof {
                        lemma_invs_after_mark(
                            ruletable, graph, rows, pre, visited, w, q_pre, queue@,
                            0, s, added_pre, res_pre, added@, res@,
                            s, false, true, false,
                        );
                            assert forall|sx: State| is_start_upto(
                                ruletable, rows, sx, k as int,
                            ) implies marked(visited, sx) by {
                                assert(marked(pre, sx));
                                assert(is_start(ruletable, rows, sx));
                                lemma_start_in_space(ruletable, rows, w, sx);
                            }
                            assert forall|q: int| 0 <= q < j implies marked(
                                visited,
                                State { node: #[trigger] elems@[q], edge: trip.1, color: trip.2 },
                            ) by {
                                let sx = State { node: elems@[q], edge: trip.1, color: trip.2 };
                                assert(marked(pre, sx));
                                assert(elems@.contains(elems@[q]));
                                lemma_members_below_iff(row, row.len() as int, elems@[q]);
                                assert(in_space(sx, w, ne as int, nc as int));
                            }
                    }
                }
            }
            j = j + 1;
        }
        proof {
            assert forall|s: State| is_start_upto(ruletable, rows, s, k + 1) implies marked(
                visited, s,
            ) by {
                let t = choose|t: int|
                    0 <= t < k + 1 && (#[trigger] ruletable.start_spec()[t]).1 == s.edge
                        && ruletable.start_spec()[t].2 == s.color && set_has(
                        rows, ruletable.start_spec()[t].0 as int, s.node as int,
                    );
                if t == k {
                    lemma_members_below_iff(row, row.len() as int, s.node);
                    assert(elems@.contains(s.node));
                    let q = choose|q: int| 0 <= q < elems@.len() && elems@[q] == s.node;
                    assert(marked(
                        visited, State { node: elems@[q], edge: trip.1, color: trip.2 },
                    ));
                }
            }
        }
        k = k + 1;
    }
    proof {
        assert(starts_marked(ruletable, rows, visited)) by {
            assert forall|s: State| #[trigger] is_start(ruletable, rows, s)
                implies marked(visited, s) by {
                assert(is_start_upto(ruletable, rows, s, ruletable.start_spec().len() as int));
            }
        }
    }

    let mut head: usize = 0;
    while head < queue.len()
        invariant
            head <= queue@.len(),
            search_setup(ruletable, graph, rows, w),
            rows == sets.rows(),
            w == n as int,
            ne == ruletable.num_edges_spec(),
            nc == ruletable.num_colors_spec(),
            visited.wf(),
            visited.dims() == (n, ne, nc),
            is_output.wf(),
            is_output.dims() == (ne, nc),
            forall|e: int, c: int|
                0 <= e < ne && 0 <= c < nc ==> #[trigger] is_output.entry(e, c) == output_pair(
                    ruletable, e as usize, c as usize,
                ),
            sound_inv(ruletable, graph, rows, visited, w),
            starts_marked(ruletable, rows, visited),
            queue_inv(graph, visited, w, ne as int, nc as int, queue@),
            expand_inv(ruletable, graph, rows, visited, w, queue@, head as int),
            result_inv(ruletable, visited, w, added@, res@),
            out_complete_inv(ruletable, visited, w, queue@, head as int, added@),
        decreases n * ne * nc - visited.count_true() + queue@.len() - head,
    {
        let s1 = queue[head];
        head = head + 1;
        proof {
            assert(in_space(s1, w, ne as int, nc as int) && marked(visited, s1) && s1.node
                < graph.n_spec());
            assert forall|s: State|
                active_has(queue@, head - 1, s) && !active_has(queue@, head as int, s)
                    implies s == s1 by {
                let ii = choose|ii: int| head - 1 <= ii < queue@.len() && queue@[ii] == s;
                assert(ii == head - 1);
            }
        }
        let ghost diff = visited.count_true() - queue@.len();
        let ghost added_pre = added@;
        let ghost res_pre = res@;
        let was_out = *is_output.get(s1.edge, s1.color);
        if !added[s1.node] && was_out {
            res.push(s1.node);
            added.set(s1.node, true);
            proof {
                lemma_result_push(ruletable, visited, w, added_pre, res_pre, s1);
            }
        }
        proof {
            assert(out_complete_inv(ruletable, visited, w, queue@, head as int, added@)) by {
                assert forall|s3: State|
                    in_space(s3, w, ne as int, nc as int) && #[trigger] marked(visited, s3)
                        && output_pair(ruletable, s3.edge, s3.color) && !active_has(
                        queue@, head as int, s3,
                    ) implies added@[s3.node as int] by {
                    if active_has(queue@, head - 1, s3) {
                        assert(s3 == s1);
                        assert(was_out);
                    } else {
                        assert(added_pre[s3.node as int]);
                    }
                }
            }
        }
        if settings.verbose {
            let mut pline = String::from_str("Processing state ");
            let ps = s1.convert_to_string(ruletable, settings);
            pline.append(ps.as_str());
            trace.push(pline);
        }
        let neigh = graph.neighbors(s1.node);
        proof {
            graph.lemma_seps_monotone(s1.node as int, s1.node + 1);
            graph.lemma_seps_monotone(s1.node + 1, graph.n_spec() as int);
        }
        let mut i: usize = 0;
        while i < neigh.len()
            invariant
                i <= neigh@.len(),
                neigh@ == graph.neighbors_spec(s1.node as int),
                in_space(s1, w, ne as int, nc as int),
                s1.node < graph.n_spec(),
                marked(visited, s1),
                head <= queue@.len(),
                search_setup(ruletable, graph, rows, w),
                rows == sets.rows(),
                w == n as int,
                ne == ruletable.num_edges_spec(),
                nc == ruletable.num_colors_spec(),
                visited.wf(),
                visited.dims() == (n, ne, nc),
                sound_inv(ruletable, graph, rows, visited, w),
                starts_marked(ruletable, rows, visited),
                queue_inv(graph, visited, w, ne as int, nc as int, queue@),
                expanded_except(
                    ruletable, graph, rows, visited, w, queue@, head as int, s1, true,
                ),
                result_inv(ruletable, visited, w, added@, res@),
                out_complete_inv(ruletable, visited, w, queue@, head as int, added@),
                forall|s2: State, q: int|
                    0 <= q < i && #[trigger] step_via(ruletable, graph, rows, s1, s2, q)
                        ==> marked(visited, s2),
                visited.count_true() - queue@.len() == diff,
            decreases neigh@.len() - i,
        {
            let arc = neigh[i];
            let u2 = arc.0;
            let t = arc.1;
            proof {
                assert(graph.neighbors_spec(s1.node as int)[i as int] == g_arc(
                    graph, s1.node as int, i as int,
                ));
                assert(g_arc(graph, s1.node as int, i as int).0 < graph.n_spec());
                assert(g_arc(graph, s1.node as int, i as int).1 < ne);
            }
            let cols = ruletable.possible_colors(s1.edge, s1.color, t);
            let mut j2: usize = 0;
            while j2 < cols.len()
                invariant
                    j2 <= cols@.len(),
                    cols@ == admissible_colors(
                        ruletable.rules_spec(), s1.edge, s1.color, t, nc as int,
                    ),
                    arc == (u2, t),
                    neigh@ == graph.neighbors_spec(s1.node as int),
                    i < neigh@.len(),
                    neigh@[i as int] == (u2, t),
                    u2 < graph.n_spec(),
                    t < ne,
                    in_space(s1, w, ne as int, nc as int),
                    s1.node < graph.n_spec(),
                    marked(visited, s1),
                    head <= queue@.len(),
                    search_setup(ruletable, graph, rows, w),
                    rows == sets.rows(),
                    w == n as int,
                    ne == ruletable.num_edges_spec(),
                    nc == ruletable.num_colors_spec(),
                    visited.wf(),
                    visited.dims() == (n, ne, nc),
                    sound_inv(ruletable, graph, rows, visited, w),
                    starts_marked(ruletable, rows, visited),
                    queue_inv(graph, visited, w, ne as int, nc as int, queue@),
                    expanded_except(
                        ruletable, graph, rows, visited, w, queue@, head as int, s1, true,
                    ),
                    result_inv(ruletable, visited, w, added@, res@),
                    out_complete_inv(ruletable, visited, w, queue@, head as int, added@),
                    forall|s2: State, q: int|
                        0 <= q < i && #[trigger] step_via(ruletable, graph, rows, s1, s2, q)
                            ==> marked(visited, s2),
                    forall|jj: int|
                        0 <= jj < j2 ==> (step_via(
                            ruletable, graph, rows, s1,
                            State { node: u2, edge: t, color: #[trigger] cols@[jj] }, i as int,
                        ) ==> marked(
                            visited, State { node: u2, edge: t, color: cols@[jj] },
                        )),
                    visited.count_true() - queue@.len() == diff,
                decreases cols@.len() - j2,
            {
                let c2 = cols[j2];
                proof {
                    assert(cols@.contains(cols@[j2 as int]));
                    lemma_admissible_colors_iff(
                        ruletable.rules_spec(), s1.edge, s1.color, t, nc as int, c2,
                    );
                }
                let s2 = State { node: u2, edge: t, color: c2 };
                if !*visited.get(s2.node, s2.edge, s2.color) {
                    if ruletable.pass(sets, s1, s2) {
                        let ghost pre = visited;
                        let ghost q_pre = queue@;
                        visited.mark(s2.node, s2.edge, s2.color);
                        queue.push(s2);
                        proof {
                            assert(step_via(ruletable, graph, rows, s1, s2, i as int));
                            assert(step(ruletable, graph, rows, s1, s2));
                            lemma_reachable_step(ruletable, graph, rows, s1, s2);
                            lemma_invs_after_mark(
                                ruletable, graph, rows, pre, visited, w, q_pre, queue@,
                                head as int, s2, added@, res@, added@, res@,
                                s1, true, true, false,
                            );
                            assert forall|sx: State| #[trigger] is_start(ruletable, rows, sx)
                                implies marked(visited, sx) by {
                                assert(marked(pre, sx));
                                lemma_start_in_space(ruletable, rows, w, sx);
                            }
                            assert forall|s2x: State, q: int|
                                0 <= q < i && #[trigger] step_via(
                                    ruletable, graph, rows, s1, s2x, q,
                                ) implies marked(visited, s2x) by {
                                assert(marked(pre, s2x));
                                assert(step(ruletable, graph, rows, s1, s2x));
                                lemma_step_target(ruletable, graph, rows, w, s1, s2x);
                            }
                            assert forall|jj: int| 0 <= jj < j2 implies (step_via(
                                ruletable, graph, rows, s1,
                                State { node: u2, edge: t, color: #[trigger] cols@[jj] },
                                i as int,
                            ) ==> marked(
                                visited, State { node: u2, edge: t, color: cols@[jj] },
                            )) by {
                                let sx = State { node: u2, edge: t, color: cols@[jj] };
                                if step_via(ruletable, graph, rows, s1, sx, i as int) {
                                    assert(marked(pre, sx));
                                    assert(step(ruletable, graph, rows, s1, sx));
                                    lemma_step_target(ruletable, graph, rows, w, s1, sx);
                                }
                            }
                        }
                        if settings.verbose {
                            let mut tline = String::from_str("  Found transition '");
                            let ts = s1.convert_transition_to_string(&s2, ruletable, settings);
                            tline.append(ts.as_str());
                            tline.append("', add state '");
                            let ss = s2.convert_to_string(ruletable, settings);
                            tline.append(ss.as_str());
                            tline.append("' to queue");
                            trace.push(tline);
                        }
                    }
                }
                j2 = j2 + 1;
            }
            proof {
                assert forall|s2: State, q: int|
                    0 <= q < i + 1 && #[trigger] step_via(ruletable, graph, rows, s1, s2, q)
                        implies marked(visited, s2) by {
                    if q == i {
                        assert(s2.node == u2 && s2.edge == t);
                        assert(s2.color < nc);
                        assert(first_match(
                            ruletable.rules_spec(), s1.edge, s1.color, t, s2.color,
                        ) is Some);
                        lemma_admissible_colors_iff(
                            ruletable.rules_spec(), s1.edge, s1.color, t, nc as int, s2.color,
                        );
                        assert(cols@.contains(s2.color));
                        let jj = choose|jj: int| 0 <= jj < cols@.len() && cols@[jj] == s2.color;
                        assert(step_via(
                            ruletable, graph, rows, s1,
                            State { node: u2, edge: t, color: cols@[jj] }, i as int,
                        ));
                    }
                }
            }
            i = i + 1;
        }
        proof {
            visited.lemma_count_bound();
            assert(expand_inv(ruletable, graph, rows, visited, w, queue@, head as int)) by {
                assert forall|s: State, s2: State|
                    in_space(s, w, ne as int, nc as int) && #[trigger] marked(visited, s)
                        && !active_has(queue@, head as int, s) && #[trigger] step(
                        ruletable, graph, rows, s, s2,
                    ) implies marked(visited, s2) by {
                    if s == s1 {
                        let q = choose|q: int| step_via(ruletable, graph, rows, s1, s2, q);
                        assert(step_via(ruletable, graph, rows, s1, s2, q));
                    }
                }
            }
        }
    }
    proof {
        assert(queue@.skip(queue@.len() as int) =~= Seq::<State>::empty());
        assert forall|s: State| !active_has(queue@, queue@.len() as int, s) by {
        }
        assert(expand_inv(ruletable, graph, rows, visited, w, Seq::<State>::empty(), 0)) by {
            assert forall|s: State, s2: State|
                in_space(s, w, ne as int, nc as int) && #[trigger] marked(visited, s)
                    && !active_has(Seq::<State>::empty(), 0, s) && #[trigger] step(
                    ruletable, graph, rows, s, s2,
                ) implies marked(visited, s2) by {
                assert(!active_has(queue@, queue@.len() as int, s));
            }
        }
        assert forall|v: usize| #[trigger] res@.contains(v) implies exists|e: usize, c: usize|
            reachable(ruletable, graph, rows, State { node: v, edge: e, color: c })
                && #[trigger] output_pair(ruletable, e, c) by {
            let i = choose|i: int| 0 <= i < res@.len() && res@[i] == v;
            assert(res_entry_justified(ruletable, visited, w, res@[i]));
            let s = choose|s: State|
                in_space(s, w, ne as int, nc as int) && #[trigger] marked(visited, s)
                    && s.node == res@[i] && output_pair(ruletable, s.edge, s.color);
            assert(reachable(ruletable, graph, rows, s));
            assert(reachable(
                ruletable, graph, rows, State { node: v, edge: s.edge, color: s.color },
            ));
        }
        assert forall|v: usize|
            (exists|e: usize, c: usize|
                reachable(ruletable, graph, rows, State { node: v, edge: e, color: c })
                    && #[trigger] output_pair(ruletable, e, c)) implies #[trigger] res@.contains(
            v,
        ) by {
            let (e, c) = choose|e: usize, c: usize|
                reachable(ruletable, graph, rows, State { node: v, edge: e, color: c })
                    && #[trigger] output_pair(ruletable, e, c);
            let s = State { node: v, edge: e, color: c };
            lemma_closure_complete(ruletable, graph, rows, visited, w, s);
            lemma_reachable_in_space(ruletable, graph, rows, w, s);
            assert(!active_has(queue@, queue@.len() as int, s));
            assert(added@[s.node as int]);
        }
    }
    (res, trace)
}

/// Runs the search, as the postcondition says: the returned vertices are
/// exactly those reachable in some output-qualifying state, each once; the
/// result is a set, independent of the order anything was handed over in.
pub fn reach(graph: &Graph, sets: &Sets, ruletable: &Ruletable, settings: &Settings) -> (res: Vec<
    usize,
>)
    requires
        ruletable.wf(),
        graph.wf(),
        graph.labels_below(ruletable.num_edges_spec() as int),
        sets.rows().len() == ruletable.num_sets_spec(),
        search_width(graph, sets.rows()) * ruletable.num_edges_spec() <= usize::MAX,
        search_width(graph, sets.rows()) * ruletable.num_edges_spec()
            * ruletable.num_colors_spec() <= usize::MAX,
    ensures
        forall|v: usize|
            #[trigger] res@.contains(v) <==> exists|e: usize, c: usize|
                reachable(ruletable, graph, sets.rows(), State { node: v, edge: e, color: c })
                    && #[trigger] output_pair(ruletable, e, c),
        forall|i: int, j: int| 0 <= i < j < res@.len() ==> res@[i] != res@[j],
{
    let out = reach_trace(graph, sets, ruletable, settings);
    out.0
}

/// The vertex space of one search: enough for the graph and for every set
/// member.
pub open spec fn search_width(g: &Graph, rows: Seq<Seq<bool>>) -> int {
    if g.n_spec() >= max_row_len(rows) {
        g.n_spec() as int
    } else {
        max_row_len(rows)
    }
}

/// The start states seeded by the first `k` declared triples.
pub open spec fn is_start_upto(rt: &Ruletable, rows: Seq<Seq<bool>>, s: State, k: int) -> bool {
    exists|t: int|
        0 <= t < k && (#[trigger] rt.start_spec()[t]).1 == s.edge && rt.start_spec()[t].2
            == s.color && set_has(rows, rt.start_spec()[t].0 as int, s.node as int)
}

/// The `q`-th arc leaving vertex `u`.
pub open spec fn g_arc(g: &Graph, u: int, q: int) -> (usize, usize) {
    g.neighbors_spec(u)[q]
}

/// Marking one state preserves every other entry of the store.
proof fn lemma_mark_frame(
    pre: Array3D<bool>, post: Array3D<bool>, s: State, w: int, ne: int, nc: int,
)
    requires
        pre.wf(),
        post.wf(),
        pre.dims() == post.dims(),
        pre.dims().0 == w && pre.dims().1 == ne && pre.dims().2 == nc,
        in_space(s, w, ne, nc),
        marked(post, s),
        forall|i2: int, j2: int, k2: int|
            0 <= i2 < w && 0 <= j2 < ne && 0 <= k2 < nc && !(i2 == s.node && j2 == s.edge && k2
                == s.color) ==> post.entry(i2, j2, k2) == pre.entry(i2, j2, k2),
    ensures
        forall|s2: State|
            in_space(s2, w, ne, nc) && #[trigger] marked(pre, s2) ==> marked(post, s2),
        forall|s2: State|
            in_space(s2, w, ne, nc) && #[trigger] marked(post, s2) ==> marked(pre, s2) || s2
                == s,
{
    assert forall|s2: State| in_space(s2, w, ne, nc) && #[trigger] marked(pre, s2)
        implies marked(post, s2) by {
        if s2 != s {
            assert(post.entry(s2.node as int, s2.edge as int, s2.color as int) == pre.entry(
                s2.node as int, s2.edge as int, s2.color as int,
            ));
        }
    }
    assert forall|s2: State| in_space(s2, w, ne, nc) && #[trigger] marked(post, s2)
        implies marked(pre, s2) || s2 == s by {
        if s2 != s {
            assert(post.entry(s2.node as int, s2.edge as int, s2.color as int) == pre.entry(
                s2.node as int, s2.edge as int, s2.color as int,
            ));
        }
    }
}

/// Marking one fresh state re-establishes the search invariants: soundness,
/// queue consistency, expansion bookkeeping, result bookkeeping and output
/// completeness all carry over to the grown store.
#[verifier::rlimit(50)]
proof fn lemma_invs_after_mark(
    rt: &Ruletable, g: &Graph, rows: Seq<Seq<bool>>, pre: Array3D<bool>, post: Array3D<bool>,
    w: int, q_pre: Seq<State>, q_post: Seq<State>, head: int, s: State, added_pre: Seq<bool>,
    res_pre: Seq<usize>, added_post: Seq<bool>, res_post: Seq<usize>, exc: State, use_exc: bool,
    pushed: bool, res_pushed: bool,
)
    requires
        search_setup(rt, g, rows, w),
        pre.wf(),
        post.wf(),
        pre.dims() == post.dims(),
        pre.dims().0 == w && pre.dims().1 == rt.num_edges_spec() && pre.dims().2
            == rt.num_colors_spec(),
        in_space(s, w, rt.num_edges_spec() as int, rt.num_colors_spec() as int),
        marked(post, s),
        forall|i2: int, j2: int, k2: int|
            0 <= i2 < w && 0 <= j2 < rt.num_edges_spec() && 0 <= k2 < rt.num_colors_spec()
                && !(i2 == s.node && j2 == s.edge && k2 == s.color)
                ==> post.entry(i2, j2, k2) == pre.entry(i2, j2, k2),
        reachable(rt, g, rows, s),
        sound_inv(rt, g, rows, pre, w),
        queue_inv(g, pre, w, rt.num_edges_spec() as int, rt.num_colors_spec() as int, q_pre),
        expanded_except(rt, g, rows, pre, w, q_pre, head, exc, use_exc),
        result_inv(rt, pre, w, added_pre, res_pre),
        out_complete_inv(rt, pre, w, q_pre, head, added_pre),
        0 <= head,
        pushed ==> q_post == q_pre.push(s) && s.node < g.n_spec() && head <= q_pre.len(),
        !pushed ==> q_post == q_pre && s.node >= g.n_spec(),
        res_pushed ==> !pushed && output_pair(rt, s.edge, s.color) && !added_pre[s.node as int]
            && added_post == added_pre.update(s.node as int, true) && res_post == res_pre.push(
            s.node,
        ),
        !res_pushed ==> added_post == added_pre && res_post == res_pre,
        !pushed && !res_pushed && output_pair(rt, s.edge, s.color) ==> added_pre[s.node as int],
    ensures
        sound_inv(rt, g, rows, post, w),
        queue_inv(g, post, w, rt.num_edges_spec() as int, rt.num_colors_spec() as int, q_post),
        expanded_except(rt, g, rows, post, w, q_post, head, exc, use_exc),
        result_inv(rt, post, w, added_post, res_post),
        out_complete_inv(rt, post, w, q_post, head, added_post),
        forall|s2: State|
            in_space(s2, w, rt.num_edges_spec() as int, rt.num_colors_spec() as int)
                && #[trigger] marked(pre, s2) ==> marked(post, s2),
{
    let ne = rt.num_edges_spec() as int;
    let nc = rt.num_colors_spec() as int;
    lemma_mark_frame(pre, post, s, w, ne, nc);
    assert forall|s2: State|
        in_space(s2, w, ne, nc) && #[trigger] marked(post, s2)
            implies reachable(rt, g, rows, s2) by {
        if s2 != s {
            assert(marked(pre, s2));
        }
    }
    assert forall|i: int| 0 <= i < q_post.len() implies in_space(#[trigger] q_post[i], w, ne, nc)
        && marked(post, q_post[i]) && q_post[i].node < g.n_spec() by {
        if i < q_pre.len() {
            assert(q_post[i] == q_pre[i]);
        } else {
            assert(q_post[i] == s);
        }
    }
    assert forall|s3: State, s2: State|
        in_space(s3, w, ne, nc) && #[trigger] marked(post, s3) && !active_has(q_post, head, s3)
            && !(use_exc && s3 == exc) && #[trigger] step(rt, g, rows, s3, s2)
            implies marked(post, s2) by {
        if s3 == s {
            if pushed {
                assert(q_post[q_post.len() - 1] == s);
                assert(active_has(q_post, head, s3));
            }
        } else {
            assert(marked(pre, s3));
            assert(!active_has(q_pre, head, s3)) by {
                if active_has(q_pre, head, s3) {
                    let i = choose|i: int| head <= i < q_pre.len() && q_pre[i] == s3;
                    assert(q_post[i] == s3);
                }
            }
            assert(marked(pre, s2));
            lemma_step_target(rt, g, rows, w, s3, s2);
        }
    }
    assert forall|i: int| 0 <= i < res_pre.len() implies res_entry_justified(
        rt, post, w, #[trigger] res_pre[i],
    ) by {
        assert(res_entry_justified(rt, pre, w, res_pre[i]));
        let s3 = choose|s3: State|
            in_space(s3, w, ne, nc) && #[trigger] marked(pre, s3) && s3.node == res_pre[i]
                && output_pair(rt, s3.edge, s3.color);
        assert(marked(post, s3));
    }
    assert(result_inv(rt, post, w, added_pre, res_pre));
    if res_pushed {
        lemma_result_push(rt, post, w, added_pre, res_pre, s);
    }
    assert forall|s3: State|
        in_space(s3, w, ne, nc) && #[trigger] marked(post, s3) && output_pair(
            rt, s3.edge, s3.color,
        ) && !active_has(q_post, head, s3) implies added_post[s3.node as int] by {
        if s3 == s {
            if pushed {
                assert(q_post[q_post.len() - 1] == s);
                assert(active_has(q_post, head, s3));
            }
        } else {
            assert(marked(pre, s3));
            assert(!active_has(q_pre, head, s3)) by {
                if active_has(q_pre, head, s3) {
                    let i = choose|i: int| head <= i < q_pre.len() && q_pre[i] == s3;
                    assert(q_post[i] == s3);
                }
            }
            assert(added_pre[s3.node as int]);
        }
    }
}

/// Listing a fresh vertex keeps the result bookkeeping consistent: the list
/// stays duplicate-free, masked exactly, and output-justified.
proof fn lemma_result_push(
    rt: &Ruletable, st: Array3D<bool>, w: int, added: Seq<bool>, res: Seq<usize>, s: State,
)
    requires
        result_inv(rt, st, w, added, res),
        in_space(s, w, rt.num_edges_spec() as int, rt.num_colors_spec() as int),
        marked(st, s),
        output_pair(rt, s.edge, s.color),
        !added[s.node as int],
    ensures
        result_inv(rt, st, w, added.update(s.node as int, true), res.push(s.node)),
{
    let added2 = added.update(s.node as int, true);
    let res2 = res.push(s.node);
    assert forall|v: usize| v < w && added2[v as int] implies #[trigger] res2.contains(v) by {
        if v == s.node {
            assert(res2[res.len() as int] == v);
        } else {
            assert(added[v as int]);
            assert(res.contains(v));
            let i = choose|i: int| 0 <= i < res.len() && res[i] == v;
            assert(res2[i] == v);
        }
    }
    assert forall|i: int, j: int| 0 <= i < j < res2.len() implies res2[i] != res2[j] by {
        if j == res.len() {
            assert(added[res[i] as int]);
        }
    }
    assert forall|i: int| 0 <= i < res2.len() implies res_entry_justified(
        rt, st, w, #[trigger] res2[i],
    ) by {
        if i == res.len() {
            assert(in_space(s, w, rt.num_edges_spec() as int, rt.num_colors_spec() as int)
                && marked(st, s) && s.node == res2[i] && output_pair(rt, s.edge, s.color));
        } else {
            assert(res2[i] == res[i]);
            assert(res_entry_justified(rt, st, w, res[i]));
        }
    }
}

} // verus!
