//! Cycle detection and cycle breaking.
//!
//! The resolver enumerates cycles of the `Plain`-edge subgraph with an
//! explicit-stack depth-first search, counts how many cycles each edge
//! takes part in, re-classifies the most-used edge (ties broken by edge
//! insertion order) as `Boxed`, and repeats until the `Plain` subgraph is
//! acyclic.  Acyclicity of the result is proved, as is idempotence (on an
//! already acyclic graph nothing changes), and a step trace pins the
//! selection policy itself.

use vstd::prelude::*;

use crate::graph::{
    is_plain_cycle, plain_acyclic, plain_edge, DependencyAnalyzer, Edge, EdgeKind, ReferenceGraph,
};

verus! {

/// Visit state of one node during the depth-first search.
#[derive(Debug, Copy, Clone, PartialEq, Eq, Structural)]
pub enum CycleState {
    Unvisited,
    OnStack,
    Processed,
}

/// The search stack is a path of `Plain` edges through distinct nodes,
/// and agrees with the per-node states.
pub open spec fn stack_ok(g: &ReferenceGraph, stack: Seq<usize>, states: Seq<CycleState>) -> bool {
    &&& states.len() == g.nodes@.len()
    &&& forall|i: int| 0 <= i < stack.len() ==> (#[trigger] stack[i]) < g.nodes@.len()
    &&& forall|i: int| 0 <= i < stack.len() ==> states[#[trigger] stack[i] as int] is OnStack
    &&& forall|u: int|
        0 <= u < states.len() && (#[trigger] states[u]) is OnStack ==> stack.contains(u as usize)
    &&& forall|i: int, j: int| 0 <= i < j < stack.len() ==> stack[i] != stack[j]
    &&& forall|i: int|
        0 <= i < stack.len() - 1 ==> plain_edge(g, #[trigger] stack[i] as int, stack[i + 1] as int)
}

/// A processed node has no `Plain` self-loop, and every `Plain` successor
/// was processed strictly earlier.
pub open spec fn node_done(
    g: &ReferenceGraph,
    states: Seq<CycleState>,
    time: Map<int, int>,
    u: int,
) -> bool {
    &&& !plain_edge(g, u, u)
    &&& forall|v: int|
        0 <= v < states.len() && v != u && #[trigger] plain_edge(g, u, v) ==> states[v] is Processed
            && time.dom().contains(v) && time[v] < time[u]
}

/// Processed nodes carry a finish time below the running counter and
/// satisfy [`node_done`]: finish times strictly decrease along `Plain`
/// edges out of processed nodes.
pub open spec fn time_ok(
    g: &ReferenceGraph,
    states: Seq<CycleState>,
    time: Map<int, int>,
    counter: int,
) -> bool {
    forall|u: int|
        0 <= u < states.len() && (#[trigger] states[u]) is Processed ==> time.dom().contains(u)
            && time[u] < counter && node_done(g, states, time, u)
}

/// A recorded cycle: a non-empty list of valid `Plain` edge indices.
pub open spec fn cycle_edges_ok(g: &ReferenceGraph, c: Seq<usize>) -> bool {
    &&& c.len() >= 1
    &&& forall|k: int|
        0 <= k < c.len() ==> (#[trigger] c[k]) < g.edges@.len() && g.edges@[c[k] as int].kind
            == EdgeKind::Plain
}

/// The edge at this index runs between the two nodes as a `Plain` edge.
pub open spec fn edge_at(g: &ReferenceGraph, e: usize, s: usize, t: usize) -> bool {
    &&& e < g.edges@.len()
    &&& g.edges@[e as int].source == s
    &&& g.edges@[e as int].target == t
    &&& g.edges@[e as int].kind == EdgeKind::Plain
}

/// The recorded edges chain head to tail through pairwise distinct nodes
/// and close back on the first: the edge list of an elementary cycle.
#[verifier::opaque]
pub open spec fn cycle_chain_ok(g: &ReferenceGraph, c: Seq<usize>) -> bool {
    exists|nodes: Seq<usize>|
        {
            &&& nodes.len() == c.len()
            &&& forall|i: int|
                0 <= i < c.len() ==> edge_at(
                    g,
                    #[trigger] c[i],
                    nodes[i],
                    nodes[if i == c.len() - 1 {
                        0int
                    } else {
                        i + 1
                    }],
                )
            &&& forall|a: int, b: int| 0 <= a < b < nodes.len() ==> nodes[a] != nodes[b]
        }
}

/// All recorded cycles are well-formed edge lists of elementary `Plain`
/// cycles, and any recorded cycle witnesses that the subgraph is cyclic.
pub open spec fn cycles_ok(g: &ReferenceGraph, cs: Seq<Vec<usize>>) -> bool {
    &&& forall|i: int|
        0 <= i < cs.len() ==> cycle_edges_ok(g, (#[trigger] cs[i])@) && cycle_chain_ok(g, cs[i]@)
    &&& cs.len() > 0 ==> !plain_acyclic(g)
}

/// A singleton cycle for the node's `Plain` self-loop is recorded.
#[verifier::opaque]
pub open spec fn self_loop_recorded(g: &ReferenceGraph, cs: Seq<Vec<usize>>, u: int) -> bool {
    exists|i: int|
        0 <= i < cs.len() && ((#[trigger] cs[i])@.len() == 1 && cs[i]@[0] < g.edges@.len()
            && g.edges@[cs[i]@[0] as int].source == u && g.edges@[cs[i]@[0] as int].target == u
            && g.edges@[cs[i]@[0] as int].kind == EdgeKind::Plain)
}

/// A recorded self-loop survives appending further cycles.
proof fn lemma_self_loop_extend(
    g: &ReferenceGraph,
    cs1: Seq<Vec<usize>>,
    cs2: Seq<Vec<usize>>,
    u: int,
)
    requires
        cs1.len() <= cs2.len(),
        forall|k: int| 0 <= k < cs1.len() ==> cs2[k] == cs1[k],
        self_loop_recorded(g, cs1, u),
    ensures
        self_loop_recorded(g, cs2, u),
{
    reveal(self_loop_recorded);
    let i = choose|i: int|
        0 <= i < cs1.len() && ((#[trigger] cs1[i])@.len() == 1 && cs1[i]@[0] < g.edges@.len()
            && g.edges@[cs1[i]@[0] as int].source == u && g.edges@[cs1[i]@[0] as int].target == u
            && g.edges@[cs1[i]@[0] as int].kind == EdgeKind::Plain);
    assert(cs2[i] == cs1[i]);
}

/// Every processed node's `Plain` self-loop has its singleton cycle
/// recorded.
pub open spec fn self_loops_recorded(
    g: &ReferenceGraph,
    states: Seq<CycleState>,
    cs: Seq<Vec<usize>>,
) -> bool {
    forall|u: int|
        0 <= u < states.len() && (#[trigger] states[u]) is Processed && plain_edge(g, u, u)
            ==> self_loop_recorded(g, cs, u)
}

/// Along a path of `Plain` edges a rank that strictly decreases over every
/// edge drops by at least the number of steps.
proof fn lemma_path_rank(g: &ReferenceGraph, rank: Map<int, int>, p: Seq<int>)
    requires
        forall|s: int, t: int|
            #[trigger] plain_edge(g, s, t) ==> s != t && rank.dom().contains(s)
                && rank.dom().contains(t) && rank[t] < rank[s],
        p.len() >= 2,
        forall|i: int| 0 <= i < p.len() - 1 ==> plain_edge(g, #[trigger] p[i], p[i + 1]),
    ensures
        rank.dom().contains(p[0]),
        rank.dom().contains(p[p.len() - 1]),
        rank[p[p.len() - 1]] <= rank[p[0]] - (p.len() - 1),
    decreases p.len(),
{
    if p.len() == 2 {
        assert(plain_edge(g, p[0], p[1]));
    } else {
        let q = p.drop_last();
        assert forall|i: int| 0 <= i < q.len() - 1 implies plain_edge(g, #[trigger] q[i], q[i + 1]) by {
            assert(p[i] == q[i] && p[i + 1] == q[i + 1]);
        }
        lemma_path_rank(g, rank, q);
        assert(plain_edge(g, p[p.len() - 2], p[p.len() - 1]));
    }
}

/// A rank that strictly decreases along every `Plain` edge rules out any
/// `Plain` cycle.
proof fn lemma_rank_acyclic(g: &ReferenceGraph, rank: Map<int, int>)
    requires
        forall|s: int, t: int|
            #[trigger] plain_edge(g, s, t) ==> s != t && rank.dom().contains(s)
                && rank.dom().contains(t) && rank[t] < rank[s],
    ensures
        plain_acyclic(g),
{
    assert forall|p: Seq<int>| !is_plain_cycle(g, p) by {
        if is_plain_cycle(g, p) {
            lemma_path_rank(g, rank, p);
        }
    }
}

/// The index of the `Plain` edge between two nodes that are known to be
/// connected by one.
fn plain_edge_index(g: &ReferenceGraph, s: usize, t: usize) -> (e: usize)
    requires
        plain_edge(g, s as int, t as int),
    ensures
        e < g.edges@.len(),
        g.edges@[e as int].source == s,
        g.edges@[e as int].target == t,
        g.edges@[e as int].kind == EdgeKind::Plain,
{
    let mut e: usize = 0;
    loop
        invariant
            exists|w: int|
                e <= w < g.edges@.len() && (#[trigger] g.edges@[w]).source == s as int
                    && g.edges@[w].target == t as int && g.edges@[w].kind == EdgeKind::Plain,
        decreases g.edges@.len() - e,
    {
        let n = g.edges.len();
        let ed = g.edges[e];
        if ed.source == s && ed.target == t && ed.kind == EdgeKind::Plain {
            return e;
        }
        proof {
            let w = choose|w: int|
                e <= w < g.edges@.len() && (#[trigger] g.edges@[w]).source == s as int
                    && g.edges@[w].target == t as int && g.edges@[w].kind == EdgeKind::Plain;
            assert(w != e as int);
            assert(e < n);
        }
        e = e + 1;
    }
}

/// Look up the `Plain` edge between two nodes, if any.
fn find_plain_edge(g: &ReferenceGraph, s: usize, t: usize) -> (r: Option<usize>)
    ensures
        match r {
            Some(e) => e < g.edges@.len() && g.edges@[e as int].source == s
                && g.edges@[e as int].target == t && g.edges@[e as int].kind == EdgeKind::Plain,
            None => !plain_edge(g, s as int, t as int),
        },
{
    let mut e: usize = 0;
    while e < g.edges.len()
        invariant
            e <= g.edges@.len(),
            forall|i: int|
                0 <= i < e ==> !((#[trigger] g.edges@[i]).source == s as int && g.edges@[i].target
                    == t as int && g.edges@[i].kind == EdgeKind::Plain),
        decreases g.edges@.len() - e,
    {
        let ed = g.edges[e];
        if ed.source == s && ed.target == t && ed.kind == EdgeKind::Plain {
            return Some(e);
        }
        e = e + 1;
    }
    proof {
        if plain_edge(g, s as int, t as int) {
            let w = choose|w: int|
                0 <= w < g.edges@.len() && (#[trigger] g.edges@[w]).source == s as int
                    && g.edges@[w].target == t as int && g.edges@[w].kind == EdgeKind::Plain;
            assert(false);
        }
    }
    None
}

/// The first not-yet-visited node reached over a `Plain` edge from `u`
/// (self-loops excluded), by edge insertion order.
fn first_unvisited_plain_neighbor(g: &ReferenceGraph, states: &Vec<CycleState>, u: usize) -> (r:
    Option<usize>)
    requires
        g.wf(),
        states@.len() == g.nodes@.len(),
    ensures
        match r {
            Some(v) => v < g.nodes@.len() && v as int != u as int && plain_edge(
                g,
                u as int,
                v as int,
            ) && states@[v as int] is Unvisited,
            None => forall|v: int|
                0 <= v < g.nodes@.len() && v != u as int && #[trigger] plain_edge(g, u as int, v)
                    ==> !(states@[v] is Unvisited),
        },
{
    let mut e: usize = 0;
    while e < g.edges.len()
        invariant
            g.wf(),
            states@.len() == g.nodes@.len(),
            e <= g.edges@.len(),
            forall|i: int|
                0 <= i < e ==> !((#[trigger] g.edges@[i]).source == u as int && g.edges@[i].target
                    != u as int && g.edges@[i].kind == EdgeKind::Plain
                    && states@[g.edges@[i].target as int] is Unvisited),
        decreases g.edges@.len() - e,
    {
        let ed = g.edges[e];
        if ed.kind == EdgeKind::Plain && ed.source == u && ed.target != u {
            let v = ed.target;
            if matches!(states[v], CycleState::Unvisited) {
                return Some(v);
            }
        }
        e = e + 1;
    }
    proof {
        assert forall|v: int|
            0 <= v < g.nodes@.len() && v != u as int && #[trigger] plain_edge(g, u as int, v)
                implies !(states@[v] is Unvisited) by {
            let w = choose|w: int|
                0 <= w < g.edges@.len() && (#[trigger] g.edges@[w]).source == u as int
                    && g.edges@[w].target == v && g.edges@[w].kind == EdgeKind::Plain;
            assert(!(states@[g.edges@[w].target as int] is Unvisited));
        }
    }
    None
}

/// Record the cycle formed by the stack suffix from `node` up to the stack
/// top, closed by the edge `closing` from the top back to `node`.
fn record_cycle(g: &ReferenceGraph, stack: &Vec<usize>, node: usize, closing: usize) -> (r: Vec<
    usize,
>)
    requires
        stack@.len() >= 1,
        forall|i: int| 0 <= i < stack@.len() ==> (#[trigger] stack@[i]) < g.nodes@.len(),
        forall|i: int|
            0 <= i < stack@.len() - 1 ==> plain_edge(
                g,
                #[trigger] stack@[i] as int,
                stack@[i + 1] as int,
            ),
        forall|a: int, b: int| 0 <= a < b < stack@.len() ==> stack@[a] != stack@[b],
        exists|j: int| 0 <= j < stack@.len() && stack@[j] == node,
        closing < g.edges@.len(),
        g.edges@[closing as int].source == stack@[stack@.len() - 1],
        g.edges@[closing as int].target == node,
        g.edges@[closing as int].kind == EdgeKind::Plain,
    ensures
        cycle_edges_ok(g, r@),
        cycle_chain_ok(g, r@),
        !plain_acyclic(g),
{
    let mut j: usize = stack.len() - 1;
    while stack[j] != node
        invariant
            j < stack@.len(),
            exists|w: int| 0 <= w <= j && stack@[w] == node,
        decreases j,
    {
        proof {
            let w = choose|w: int| 0 <= w <= j && stack@[w] == node;
            assert(w < j);
        }
        j = j - 1;
    }
    let mut out: Vec<usize> = Vec::new();
    let mut k: usize = j;
    while k < stack.len() - 1
        invariant
            j <= k < stack@.len(),
            stack@[j as int] == node,
            out@.len() == k - j,
            forall|i: int|
                0 <= i < out@.len() ==> edge_at(g, #[trigger] out@[i], stack@[j + i], stack@[j + i
                    + 1]),
            forall|a: int, b: int| 0 <= a < b < stack@.len() ==> stack@[a] != stack@[b],
            forall|i: int| 0 <= i < stack@.len() ==> (#[trigger] stack@[i]) < g.nodes@.len(),
            forall|i: int|
                0 <= i < stack@.len() - 1 ==> plain_edge(
                    g,
                    #[trigger] stack@[i] as int,
                    stack@[i + 1] as int,
                ),
        decreases stack@.len() - k,
    {
        let e = plain_edge_index(g, stack[k], stack[k + 1]);
        out.push(e);
        k = k + 1;
    }
    out.push(closing);
    proof {
        reveal(cycle_chain_ok);
        let ns = stack@.subrange(j as int, stack@.len() as int);
        assert(ns.len() == out@.len());
        assert forall|i: int|
            0 <= i < out@.len() implies edge_at(
            g,
            #[trigger] out@[i],
            ns[i],
            ns[if i == out@.len() - 1 {
                0int
            } else {
                i + 1
            }],
        ) by {
            if i < out@.len() - 1 {
                assert(ns[i] == stack@[j + i] && ns[i + 1] == stack@[j + i + 1]);
            } else {
                assert(ns[i] == stack@[stack@.len() - 1] && ns[0] == stack@[j as int]);
            }
        }
        assert forall|a: int, b: int| 0 <= a < b < ns.len() implies ns[a] != ns[b] by {
            assert(ns[a] == stack@[j + a] && ns[b] == stack@[j + b]);
        }
        assert(cycle_chain_ok(g, out@));
        // witness: the node sequence of the stack suffix, closed at `node`
        let p = stack@.subrange(j as int, stack@.len() as int).map_values(|x: usize| x as int).push(
            node as int,
        );
        assert(p.len() >= 2);
        assert(p[0] == node as int);
        assert(p[p.len() - 1] == node as int);
        assert forall|i: int| 0 <= i < p.len() - 1 implies plain_edge(g, #[trigger] p[i], p[i + 1]) by {
            if i < p.len() - 2 {
                assert(p[i] == stack@[j + i] as int);
                assert(p[i + 1] == stack@[j + i + 1] as int);
                assert(plain_edge(g, stack@[j + i] as int, stack@[j + i + 1] as int));
            } else {
                assert(p[i] == stack@[stack@.len() - 1] as int);
                assert(plain_edge(g, stack@[stack@.len() - 1] as int, node as int));
            }
        }
        assert(is_plain_cycle(g, p));
    }
    out
}

/// Every finish time recorded so far lies below the running counter.
pub open spec fn time_wf(time: Map<int, int>, counter: int) -> bool {
    forall|u: int| #[trigger] time.dom().contains(u) ==> time[u] < counter
}

/// How a node's visit state may evolve during one search.
pub open spec fn state_step(a: CycleState, b: CycleState) -> bool {
    match a {
        CycleState::Unvisited => true,
        CycleState::OnStack => b is OnStack || b is Processed,
        CycleState::Processed => b is Processed,
    }
}

/// The number of unvisited nodes.
pub open spec fn count_unvisited(s: Seq<CycleState>) -> nat
    decreases s.len(),
{
    if s.len() == 0 {
        0
    } else {
        count_unvisited(s.drop_last()) + if s.last() is Unvisited {
            1nat
        } else {
            0nat
        }
    }
}

proof fn lemma_count_set(s: Seq<CycleState>, i: int, v: CycleState)
    requires
        0 <= i < s.len(),
    ensures
        count_unvisited(s.update(i, v)) + (if s[i] is Unvisited {
            1int
        } else {
            0int
        }) == count_unvisited(s) + (if v is Unvisited {
            1int
        } else {
            0int
        }),
    decreases s.len(),
{
    let t = s.update(i, v);
    if i == s.len() - 1 {
        assert(t.drop_last() =~= s.drop_last());
        assert(t.last() == v);
    } else {
        assert(t.drop_last() =~= s.drop_last().update(i, v));
        assert(t.last() == s.last());
        lemma_count_set(s.drop_last(), i, v);
    }
}

/// One depth-first tree.  The stack grows along `Plain` edges into
/// unvisited nodes; when the top node has none left, the cycles closed by
/// its remaining `Plain` edges are recorded and it is popped.  A node is
/// popped only once every `Plain` successor other than itself has been
/// processed or a cycle through it has been recorded.
fn process_dfs_tree(
    g: &ReferenceGraph,
    stack: &mut Vec<usize>,
    states: &mut Vec<CycleState>,
    cycles: &mut Vec<Vec<usize>>,
    time0: Ghost<Map<int, int>>,
    counter0: Ghost<int>,
) -> (r: (Ghost<Map<int, int>>, Ghost<int>))
    requires
        g.wf(),
        stack_ok(g, old(stack)@, old(states)@),
        time_wf(time0@, counter0@),
        old(cycles)@.len() == 0 ==> time_ok(g, old(states)@, time0@, counter0@),
        cycles_ok(g, old(cycles)@),
        self_loops_recorded(g, old(states)@, old(cycles)@),
    ensures
        final (stack)@.len() == 0,
        stack_ok(g, final (stack)@, final (states)@),
        forall|u: int|
            0 <= u < final (states)@.len() ==> state_step(
                old(states)@[u],
                #[trigger] final (states)@[u],
            ),
        time_wf(r.0@, r.1@),
        final (cycles)@.len() == 0 ==> time_ok(g, final (states)@, r.0@, r.1@),
        cycles_ok(g, final (cycles)@),
        self_loops_recorded(g, final (states)@, final (cycles)@),
{
    let ghost mut time = time0@;
    let ghost mut counter = counter0@;
    while stack.len() > 0
        invariant
            g.wf(),
            stack_ok(g, stack@, states@),
            time_wf(time, counter),
            cycles@.len() == 0 ==> time_ok(g, states@, time, counter),
            cycles_ok(g, cycles@),
            self_loops_recorded(g, states@, cycles@),
            states@.len() == old(states)@.len(),
            forall|u: int|
                0 <= u < states@.len() ==> state_step(old(states)@[u], #[trigger] states@[u]),
        decreases count_unvisited(states@), stack@.len(),
    {
        let last = stack[stack.len() - 1];
        let ghost states_at_top = states@;
        let ghost stack_at_top = stack@;
        let ghost cycles_at_top = cycles@;
        match first_unvisited_plain_neighbor(g, states, last) {
            Some(v) => {
                stack.push(v);
                states.set(v, CycleState::OnStack);
                proof {
                    lemma_count_set(states_at_top, v as int, CycleState::OnStack);
                    assert(stack@ == stack_at_top.push(v));
                    assert(states@ == states_at_top.update(v as int, CycleState::OnStack));
                    // the new top is a fresh node reached over a plain edge
                    assert forall|i: int| 0 <= i < stack_at_top.len() implies (#[trigger] stack_at_top[i])
                        != v by {
                        assert(states_at_top[stack_at_top[i] as int] is OnStack);
                    }
                    assert forall|u: int|
                        0 <= u < states@.len() && (#[trigger] states@[u]) is OnStack implies stack@.contains(
                        u as usize,
                    ) by {
                        if u == v as int {
                            assert(stack@[stack@.len() - 1] == v);
                        } else {
                            assert(states_at_top[u] is OnStack);
                            let i = choose|i: int|
                                0 <= i < stack_at_top.len() && stack_at_top[i] == u as usize;
                            assert(stack@[i] == u as usize);
                        }
                    }
                    assert forall|u: int|
                        0 <= u < states@.len() && (#[trigger] states@[u]) is Processed
                            && plain_edge(g, u, u) implies self_loop_recorded(g, cycles@, u) by {
                        assert(states_at_top[u] is Processed);
                    }
                    assert(cycles@.len() == 0 ==> time_ok(g, states@, time, counter)) by {
                        if cycles@.len() == 0 {
                            assert forall|u: int|
                                0 <= u < states@.len() && (#[trigger] states@[u]) is Processed implies time.dom().contains(
                                u,
                            ) && time[u] < counter && node_done(g, states@, time, u) by {
                                assert(states_at_top[u] is Processed);
                                assert(node_done(g, states_at_top, time, u));
                                assert forall|w: int|
                                    0 <= w < states@.len() && w != u && #[trigger] plain_edge(
                                        g,
                                        u,
                                        w,
                                    ) implies states@[w] is Processed && time.dom().contains(w)
                                    && time[w] < time[u] by {
                                    assert(states_at_top[w] is Processed);
                                    assert(w != v as int);
                                }
                            }
                        }
                    }
                }
            },
            None => {
                let ghost cycles_at_check = cycles@;
                match find_plain_edge(g, last, last) {
                    Some(e) => {
                        let mut c: Vec<usize> = Vec::new();
                        c.push(e);
                        proof {
                            let p = seq![last as int, last as int];
                            assert(p[0] == last as int && p[1] == last as int);
                            assert(plain_edge(g, last as int, last as int));
                            assert(is_plain_cycle(g, p));
                            reveal(cycle_chain_ok);
                            let ns = seq![last];
                            assert(ns.len() == c@.len());
                            assert forall|i: int| 0 <= i < c@.len() implies edge_at(
                                g,
                                #[trigger] c@[i],
                                ns[i],
                                ns[if i == c@.len() - 1 {
                                    0int
                                } else {
                                    i + 1
                                }],
                            ) by {
                                assert(i == 0);
                                assert(edge_at(g, c@[0], last, last));
                            }
                            assert(cycle_chain_ok(g, c@));
                        }
                        cycles.push(c);
                        proof {
                            reveal(self_loop_recorded);
                            assert(cycles@[cycles@.len() - 1]@ =~= seq![e]);
                            assert(self_loop_recorded(g, cycles@, last as int));
                            assert forall|u: int|
                                0 <= u < states@.len() && (#[trigger] states@[u]) is Processed
                                    && plain_edge(g, u, u) implies self_loop_recorded(
                                g,
                                cycles@,
                                u,
                            ) by {
                                lemma_self_loop_extend(g, cycles_at_check, cycles@, u);
                            }
                        }
                    },
                    None => {},
                }
                // close the cycles formed through neighbours still on the stack
                let mut e: usize = 0;
                while e < g.edges.len()
                    invariant
                        g.wf(),
                        stack_ok(g, stack@, states@),
                        cycles_ok(g, cycles@),
                        e <= g.edges@.len(),
                        stack@.len() > 0,
                        stack@[stack@.len() - 1] == last,
                        cycles@.len() == 0 ==> !plain_edge(g, last as int, last as int),
                        cycles@.len() == 0 ==> forall|v: int|
                            0 <= v < g.nodes@.len() && v != last as int && #[trigger] plain_edge(
                                g,
                                last as int,
                                v,
                            ) ==> !(states@[v] is Unvisited),
                        cycles@.len() == 0 ==> forall|i: int|
                            0 <= i < e ==> !((#[trigger] g.edges@[i]).source == last as int
                                && g.edges@[i].target != last as int && g.edges@[i].kind
                                == EdgeKind::Plain && states@[g.edges@[i].target as int] is OnStack),
                        cycles@.len() >= cycles_at_top.len(),
                        states@ == states_at_top,
                        time_wf(time, counter),
                        cycles_at_top.len() == 0 ==> time_ok(g, states_at_top, time, counter),
                        self_loops_recorded(g, states@, cycles@),
                        plain_edge(g, last as int, last as int) ==> self_loop_recorded(
                            g,
                            cycles@,
                            last as int,
                        ),
                    decreases g.edges@.len() - e,
                {
                    let ed = g.edges[e];
                    if ed.kind == EdgeKind::Plain && ed.source == last && ed.target != last {
                        if matches!(states[ed.target], CycleState::OnStack) {
                            proof {
                                assert(stack@.contains(ed.target));
                            }
                            let ghost cycles_b = cycles@;
                            let c = record_cycle(g, stack, ed.target, e);
                            cycles.push(c);
                            proof {
                                assert forall|u: int|
                                    0 <= u < states@.len() && (#[trigger] states@[u]) is Processed
                                        && plain_edge(g, u, u) implies self_loop_recorded(
                                    g,
                                    cycles@,
                                    u,
                                ) by {
                                    lemma_self_loop_extend(g, cycles_b, cycles@, u);
                                }
                                if plain_edge(g, last as int, last as int) {
                                    lemma_self_loop_extend(g, cycles_b, cycles@, last as int);
                                }
                            }
                        }
                    }
                    e = e + 1;
                }
                // every successor is settled: pop the node and stamp it
                let ghost states_at_pop = states@;
                let ghost stack_at_pop = stack@;
                stack.pop();
                states.set(last, CycleState::Processed);
                proof {
                    vstd::std_specs::vec::axiom_spec_len(&*states);
                    lemma_count_set(states_at_pop, last as int, CycleState::Processed);
                    assert(cycles@.len() == 0 ==> cycles_at_top.len() == 0);
                    assert(cycles@.len() == 0 ==> time_ok(g, states_at_pop, time, counter));
                    assert forall|u: int|
                        0 <= u < states@.len() && (#[trigger] states@[u]) is Processed
                            && plain_edge(g, u, u) implies self_loop_recorded(g, cycles@, u) by {
                        if u != last as int {
                            assert(states_at_pop[u] is Processed);
                        }
                    }
                    let time_before = time;
                    let counter_before = counter;
                    time = time.insert(last as int, counter);
                    counter = counter + 1;
                    assert(stack@ =~= stack_at_pop.drop_last());
                    assert(states@ == states_at_pop.update(last as int, CycleState::Processed));
                    // the stack without its top is still a consistent search state
                    assert forall|u: int|
                        0 <= u < states@.len() && (#[trigger] states@[u]) is OnStack implies stack@.contains(
                        u as usize,
                    ) by {
                        assert(u != last as int);
                        assert(states_at_pop[u] is OnStack);
                        let i = choose|i: int|
                            0 <= i < stack_at_pop.len() && stack_at_pop[i] == u as usize;
                        assert(stack_at_pop[stack_at_pop.len() - 1] == last);
                        assert(i < stack_at_pop.len() - 1);
                        assert(stack@[i] == u as usize);
                    }
                    // finish times still decrease along settled edges
                    assert(cycles@.len() == 0 ==> time_ok(g, states@, time, counter)) by {
                        if cycles@.len() == 0 {
                            assert forall|u: int|
                                0 <= u < states@.len() && (#[trigger] states@[u]) is Processed implies time.dom().contains(
                                u,
                            ) && time[u] < counter && node_done(g, states@, time, u) by {
                                if u == last as int {
                                    assert(time[u] == counter_before);
                                    assert(!plain_edge(g, u, u));
                                    assert forall|w: int|
                                        0 <= w < states@.len() && w != u && #[trigger] plain_edge(
                                            g,
                                            u,
                                            w,
                                        ) implies states@[w] is Processed && time.dom().contains(w)
                                        && time[w] < time[u] by {
                                        assert(!(states_at_pop[w] is Unvisited));
                                        let wi = choose|wi: int|
                                            0 <= wi < g.edges@.len() && (#[trigger] g.edges@[wi]).source
                                                == u && g.edges@[wi].target == w && g.edges@[wi].kind
                                                == EdgeKind::Plain;
                                        assert(!(states_at_pop[w] is OnStack));
                                        assert(states_at_pop[w] is Processed);
                                        assert(time_before.dom().contains(w));
                                        assert(time[w] == time_before[w]);
                                        assert(time_before[w] < counter_before);
                                    }
                                } else {
                                    assert(states_at_pop[u] is Processed);
                                    assert(time_before.dom().contains(u) && time_before[u]
                                        < counter_before);
                                    assert(node_done(g, states_at_pop, time_before, u));
                                    assert(time[u] == time_before[u]);
                                    assert forall|w: int|
                                        0 <= w < states@.len() && w != u && #[trigger] plain_edge(
                                            g,
                                            u,
                                            w,
                                        ) implies states@[w] is Processed && time.dom().contains(w)
                                        && time[w] < time[u] by {
                                        assert(states_at_pop[w] is Processed);
                                        assert(w != last as int);
                                        assert(time[w] == time_before[w]);
                                    }
                                }
                            }
                        }
                    }
                }
            },
        }
    }
    (Ghost(time), Ghost(counter))
}


/// Enumerate the cycles of the `Plain` subgraph.  An empty result proves
/// the subgraph acyclic; a non-empty one witnesses a cycle.
pub fn find_cycles(g: &ReferenceGraph) -> (cycles: Vec<Vec<usize>>)
    requires
        g.wf(),
    ensures
        cycles_ok(g, cycles@),
        cycles@.len() == 0 <==> plain_acyclic(g),
        forall|u: int|
            0 <= u < g.nodes@.len() && #[trigger] plain_edge(g, u, u) ==> self_loop_recorded(
                g,
                cycles@,
                u,
            ),
{
    let n = g.nodes.len();
    let mut states: Vec<CycleState> = Vec::new();
    while states.len() < n
        invariant
            states@.len() <= n,
            forall|u: int| 0 <= u < states@.len() ==> (#[trigger] states@[u]) is Unvisited,
        decreases n - states@.len(),
    {
        states.push(CycleState::Unvisited);
    }
    let mut cycles: Vec<Vec<usize>> = Vec::new();
    let ghost mut time = Map::<int, int>::empty();
    let ghost mut counter = 0int;
    let mut root: usize = 0;
    while root < n
        invariant
            g.wf(),
            n == g.nodes@.len(),
            states@.len() == n,
            forall|u: int| 0 <= u < n ==> !((#[trigger] states@[u]) is OnStack),
            forall|u: int| 0 <= u < root ==> (#[trigger] states@[u]) is Processed,
            time_wf(time, counter),
            cycles@.len() == 0 ==> time_ok(g, states@, time, counter),
            cycles_ok(g, cycles@),
            self_loops_recorded(g, states@, cycles@),
        decreases n - root,
    {
        if matches!(states[root], CycleState::Unvisited) {
            let ghost states_before = states@;
            let mut stack: Vec<usize> = Vec::new();
            stack.push(root);
            states.set(root, CycleState::OnStack);
            proof {
                assert(stack@ =~= seq![root]);
                assert forall|u: int|
                    0 <= u < states@.len() && (#[trigger] states@[u]) is OnStack implies stack@.contains(
                    u as usize,
                ) by {
                    assert(u == root as int);
                    assert(stack@[0] == root);
                }
                assert(stack_ok(g, stack@, states@));
                assert forall|u: int|
                    0 <= u < states@.len() && (#[trigger] states@[u]) is Processed && plain_edge(
                        g,
                        u,
                        u,
                    ) implies self_loop_recorded(g, cycles@, u) by {
                    assert(states_before[u] is Processed);
                }
                assert(cycles@.len() == 0 ==> time_ok(g, states@, time, counter)) by {
                    if cycles@.len() == 0 {
                        assert forall|u: int|
                            0 <= u < states@.len() && (#[trigger] states@[u]) is Processed implies time.dom().contains(
                            u,
                        ) && time[u] < counter && node_done(g, states@, time, u) by {
                            assert(states_before[u] is Processed);
                            assert(node_done(g, states_before, time, u));
                            assert forall|w: int|
                                0 <= w < states@.len() && w != u && #[trigger] plain_edge(g, u, w)
                                    implies states@[w] is Processed && time.dom().contains(w)
                                && time[w] < time[u] by {
                                assert(states_before[w] is Processed);
                                assert(w != root as int);
                            }
                        }
                    }
                }
            }
            let ghosts = process_dfs_tree(g, &mut stack, &mut states, &mut cycles, Ghost(time), Ghost(counter));
            proof {
                time = ghosts.0@;
                counter = ghosts.1@;
                assert forall|u: int| 0 <= u < n implies !((#[trigger] states@[u]) is OnStack) by {
                    if states@[u] is OnStack {
                        assert(stack@.contains(u as usize));
                    }
                }
                assert forall|u: int| 0 <= u < root as int + 1 implies (
                #[trigger] states@[u]) is Processed by {
                    assert(state_step(states_before.update(root as int, CycleState::OnStack)[u], states@[u]));
                    if u == root as int {
                        assert(!(states@[u] is OnStack));
                    }
                }
            }
        }
        root = root + 1;
    }
    proof {
        assert forall|u: int|
            0 <= u < g.nodes@.len() && #[trigger] plain_edge(g, u, u) implies self_loop_recorded(
            g,
            cycles@,
            u,
        ) by {
            assert(states@[u] is Processed);
        }
        if cycles@.len() == 0 {
            assert forall|s: int, t: int| #[trigger] plain_edge(g, s, t) implies s != t
                && time.dom().contains(s) && time.dom().contains(t) && time[t] < time[s] by {
                let w = choose|w: int|
                    0 <= w < g.edges@.len() && (#[trigger] g.edges@[w]).source == s
                        && g.edges@[w].target == t && g.edges@[w].kind == EdgeKind::Plain;
                assert(0 <= s < n && 0 <= t < n);
                assert(states@[s] is Processed);
                assert(node_done(g, states@, time, s));
                if s == t {
                    assert(!plain_edge(g, s, s));
                    assert(false);
                } else {
                    assert(states@[t] is Processed);
                }
            }
            lemma_rank_acyclic(g, time);
        }
    }
    cycles
}

/// Edges may only have changed from `Plain` to `Boxed`; endpoints and
/// count are untouched.
pub open spec fn boxed_only(pre: Seq<Edge>, post: Seq<Edge>) -> bool {
    &&& post.len() == pre.len()
    &&& forall|i: int|
        0 <= i < pre.len() ==> (#[trigger] post[i]).source == (#[trigger] pre[i]).source
            && post[i].target == pre[i].target && (post[i].kind == pre[i].kind || (pre[i].kind
            == EdgeKind::Plain && post[i].kind == EdgeKind::Boxed))
}

/// The number of `Plain` edges.
pub open spec fn plain_count(edges: Seq<Edge>) -> nat
    decreases edges.len(),
{
    if edges.len() == 0 {
        0
    } else {
        plain_count(edges.drop_last()) + if edges.last().kind == EdgeKind::Plain {
            1nat
        } else {
            0nat
        }
    }
}

proof fn lemma_plain_count_update(edges: Seq<Edge>, i: int, v: Edge)
    requires
        0 <= i < edges.len(),
    ensures
        plain_count(edges.update(i, v)) + (if edges[i].kind == EdgeKind::Plain {
            1int
        } else {
            0int
        }) == plain_count(edges) + (if v.kind == EdgeKind::Plain {
            1int
        } else {
            0int
        }),
    decreases edges.len(),
{
    let t = edges.update(i, v);
    if i == edges.len() - 1 {
        assert(t.drop_last() =~= edges.drop_last());
        assert(t.last() == v);
    } else {
        assert(t.drop_last() =~= edges.drop_last().update(i, v));
        assert(t.last() == edges.last());
        lemma_plain_count_update(edges.drop_last(), i, v);
    }
}

/// Two graphs with the same edges have the same `Plain` cycles.
proof fn lemma_acyclic_same_edges(g1: &ReferenceGraph, g2: &ReferenceGraph)
    requires
        g1.edges@ == g2.edges@,
    ensures
        plain_acyclic(g1) == plain_acyclic(g2),
{
    assert forall|s: int, t: int| plain_edge(g1, s, t) == plain_edge(g2, s, t) by {
        if plain_edge(g1, s, t) {
            let w = choose|w: int|
                0 <= w < g1.edges@.len() && (#[trigger] g1.edges@[w]).source == s
                    && g1.edges@[w].target == t && g1.edges@[w].kind == EdgeKind::Plain;
            assert(g2.edges@[w] == g1.edges@[w]);
            assert(plain_edge(g2, s, t));
        }
        if plain_edge(g2, s, t) {
            let w = choose|w: int|
                0 <= w < g2.edges@.len() && (#[trigger] g2.edges@[w]).source == s
                    && g2.edges@[w].target == t && g2.edges@[w].kind == EdgeKind::Plain;
            assert(g1.edges@[w] == g2.edges@[w]);
            assert(plain_edge(g1, s, t));
        }
    }
    assert forall|p: Seq<int>| is_plain_cycle(g1, p) == is_plain_cycle(g2, p) by {
        if is_plain_cycle(g1, p) {
            assert forall|i: int| 0 <= i < p.len() - 1 implies plain_edge(g2, #[trigger] p[i], p[i + 1]) by {
                assert(plain_edge(g1, p[i], p[i + 1]));
            }
            assert(is_plain_cycle(g2, p));
        }
        if is_plain_cycle(g2, p) {
            assert forall|i: int| 0 <= i < p.len() - 1 implies plain_edge(g1, #[trigger] p[i], p[i + 1]) by {
                assert(plain_edge(g2, p[i], p[i + 1]));
            }
            assert(is_plain_cycle(g1, p));
        }
    }
    if plain_acyclic(g1) {
        assert forall|p: Seq<int>| !is_plain_cycle(g2, p) by {
            assert(!is_plain_cycle(g1, p));
        }
    }
    if plain_acyclic(g2) {
        assert forall|p: Seq<int>| !is_plain_cycle(g1, p) by {
            assert(!is_plain_cycle(g2, p));
        }
    }
}

/// One resolution run: edge kinds may move from `Plain` to `Boxed` only,
/// the result is acyclic, and an acyclic input is returned unchanged.
pub open spec fn resolve_rel(pre: &ReferenceGraph, post: &ReferenceGraph) -> bool {
    &&& post.nodes@ == pre.nodes@
    &&& boxed_only(pre.edges@, post.edges@)
    &&& plain_acyclic(post)
    &&& plain_acyclic(pre) ==> post.edges@ == pre.edges@
}

/// Resolving is idempotent: a second run over an already resolved graph
/// changes nothing.
pub proof fn lemma_resolve_idempotent(
    g0: &ReferenceGraph,
    g1: &ReferenceGraph,
    g2: &ReferenceGraph,
)
    requires
        resolve_rel(g0, g1),
        resolve_rel(g1, g2),
    ensures
        g2.edges@ == g1.edges@,
        g2.nodes@ == g1.nodes@,
{
}

/// Break all cycles of the `Plain` subgraph by re-classifying edges as
/// `Boxed`: repeatedly enumerate cycles, count per-edge participation, and
/// box the most-used `Plain` edge, ties broken by edge insertion order.
/// How often an edge index occurs in one recorded cycle.
pub open spec fn count_in(c: Seq<usize>, e: int) -> nat
    decreases c.len(),
{
    if c.len() == 0 {
        0
    } else {
        count_in(c.drop_last(), e) + if c.last() as int == e {
            1nat
        } else {
            0nat
        }
    }
}

/// In how many discovered cycle entries an edge takes part.
pub open spec fn occ_of(cs: Seq<Vec<usize>>, e: int) -> nat
    decreases cs.len(),
{
    if cs.len() == 0 {
        0
    } else {
        occ_of(cs.drop_last(), e) + count_in(cs.last()@, e)
    }
}

/// The best edge among the first `n`: the one on the most discovered
/// cycles, the earliest-inserted one among ties (only a strictly greater
/// count displaces the running best).
pub open spec fn best_edge_upto(cs: Seq<Vec<usize>>, n: int) -> (int, nat)
    decreases n,
{
    if n <= 0 {
        (0int, 0nat)
    } else {
        let prev = best_edge_upto(cs, n - 1);
        if occ_of(cs, n - 1) > prev.1 {
            (n - 1, occ_of(cs, n - 1))
        } else {
            prev
        }
    }
}

/// The edge one resolution step boxes, given the discovered cycles.
pub open spec fn spec_selected_edge(cs: Seq<Vec<usize>>, edge_count: int) -> int {
    best_edge_upto(cs, edge_count).0
}

/// One resolution step: exactly the selected edge is re-kinded `Boxed`,
/// everything else is untouched.
pub open spec fn boxed_one(pre: ReferenceGraph, post: ReferenceGraph, cs: Seq<Vec<usize>>) -> bool {
    let e = spec_selected_edge(cs, pre.edges@.len() as int);
    &&& post.nodes@ == pre.nodes@
    &&& 0 <= e < pre.edges@.len()
    &&& post.edges@ == pre.edges@.update(
        e,
        Edge { source: pre.edges@[e].source, target: pre.edges@[e].target, kind: EdgeKind::Boxed },
    )
}

/// The whole resolution as a chain of steps: every iteration discovered a
/// non-empty, well-formed set of cycles and boxed the selected edge; the
/// chain ends at the final graph.
pub open spec fn resolve_trace(
    g0: ReferenceGraph,
    gn: ReferenceGraph,
    steps: Seq<(ReferenceGraph, Vec<Vec<usize>>)>,
) -> bool {
    &&& steps.len() == 0 ==> gn == g0
    &&& steps.len() > 0 ==> steps[0].0 == g0 && boxed_one(steps.last().0, gn, steps.last().1@)
    &&& forall|i: int|
        0 <= i < steps.len() ==> ((#[trigger] steps[i]).1)@.len() > 0 && cycles_ok(
            &steps[i].0,
            steps[i].1@,
        )
    &&& forall|i: int|
        0 < i < steps.len() ==> boxed_one(steps[i - 1].0, (#[trigger] steps[i]).0, steps[i - 1].1@)
}

/// Room for one more exact occurrence count.
proof fn lemma_count_headroom(ci: int, ei: int)
    requires
        0 <= ci <= usize::MAX as int,
        0 <= ei <= usize::MAX as int,
    ensures
        ci * (usize::MAX as int) + ei < u128::MAX as int,
{
    let m = usize::MAX as int;
    vstd::arithmetic::mul::lemma_mul_inequality(ci, m, m);
    assert(m <= u64::MAX as int);
    vstd::arithmetic::mul::lemma_mul_upper_bound(m, u64::MAX as int, m, u64::MAX as int);
    assert((u64::MAX as int) * (u64::MAX as int) + (u64::MAX as int) < u128::MAX as int);
}

/// Break all cycles of the `Plain` subgraph by re-classifying edges as
/// `Boxed`: repeatedly enumerate cycles, count per-edge participation, and
/// box the most-used `Plain` edge, ties broken by edge insertion order.
/// The trace ensures pins the policy: each iteration boxes exactly the
/// selected edge of the cycles it discovered.
pub fn remove_cycles(graph: &mut ReferenceGraph)
    requires
        old(graph).wf(),
    ensures
        final (graph).wf(),
        resolve_rel(old(graph), final (graph)),
        exists|steps: Seq<(ReferenceGraph, Vec<Vec<usize>>)>|
            resolve_trace(*old(graph), *final (graph), steps),
{
    let ghost mut steps: Seq<(ReferenceGraph, Vec<Vec<usize>>)> = Seq::empty();
    loop
        invariant
            graph.wf(),
            graph.nodes@ == old(graph).nodes@,
            boxed_only(old(graph).edges@, graph.edges@),
            plain_acyclic(old(graph)) ==> graph.edges@ == old(graph).edges@,
            steps.len() == 0 ==> *graph == *old(graph),
            steps.len() > 0 ==> steps[0].0 == *old(graph) && boxed_one(
                steps.last().0,
                *graph,
                steps.last().1@,
            ),
            forall|i: int|
                0 <= i < steps.len() ==> ((#[trigger] steps[i]).1)@.len() > 0 && cycles_ok(
                    &steps[i].0,
                    steps[i].1@,
                ),
            forall|i: int|
                0 < i < steps.len() ==> boxed_one(
                    steps[i - 1].0,
                    (#[trigger] steps[i]).0,
                    steps[i - 1].1@,
                ),
        decreases plain_count(graph.edges@),
    {
        let cycles = find_cycles(graph);
        if cycles.len() == 0 {
            proof {
                if plain_acyclic(old(graph)) {
                    lemma_acyclic_same_edges(old(graph), graph);
                }
                assert(resolve_trace(*old(graph), *graph, steps));
            }
            return ;
        }
        let ghost g_top = *graph;
        let ne = graph.edges.len();
        let mut occ: Vec<u128> = Vec::new();
        while occ.len() < ne
            invariant
                occ@.len() <= ne,
                forall|i: int| 0 <= i < occ@.len() ==> (#[trigger] occ@[i]) == 0u128,
            decreases ne - occ@.len(),
        {
            occ.push(0);
        }
        proof {
            assert(cycles@.take(0) =~= Seq::<Vec<usize>>::empty());
            assert forall|x: int| 0 <= x < ne implies occ@[x] == occ_of(cycles@.take(0), x) by {
                assert(occ@[x] == 0);
            }
        }
        let ghost first: int = cycles@[0]@[0] as int;
        let mut ci: usize = 0;
        while ci < cycles.len()
            invariant
                graph.wf(),
                cycles_ok(graph, cycles@),
                cycles@.len() > 0,
                first == cycles@[0]@[0] as int,
                ne == graph.edges@.len(),
                occ@.len() == ne,
                ci <= cycles@.len(),
                forall|x: int|
                    0 <= x < ne ==> (#[trigger] occ@[x]) == occ_of(cycles@.take(ci as int), x)
                        && occ@[x] <= (ci as int) * (usize::MAX as int),
                forall|i: int|
                    0 <= i < occ@.len() && (#[trigger] occ@[i]) > 0 ==> graph.edges@[i].kind
                        == EdgeKind::Plain,
                ci > 0 ==> occ@[first] > 0,
            decreases cycles@.len() - ci,
        {
            let cyc = &cycles[ci];
            let cl = cyc.len();
            proof {
                assert(cyc@.take(0) =~= Seq::<usize>::empty());
            }
            let mut ei: usize = 0;
            while ei < cl
                invariant
                    graph.wf(),
                    cycles_ok(graph, cycles@),
                    cycles@.len() > 0,
                    first == cycles@[0]@[0] as int,
                    ci < cycles@.len(),
                    cyc@ == cycles@[ci as int]@,
                    cl == cyc@.len(),
                    ne == graph.edges@.len(),
                    occ@.len() == ne,
                    ei <= cl,
                    forall|x: int|
                        0 <= x < ne ==> (#[trigger] occ@[x]) == occ_of(cycles@.take(ci as int), x)
                            + count_in(cyc@.take(ei as int), x) && occ@[x] <= (ci as int) * (
                        usize::MAX as int) + ei as int,
                    forall|i: int|
                        0 <= i < occ@.len() && (#[trigger] occ@[i]) > 0 ==> graph.edges@[i].kind
                            == EdgeKind::Plain,
                    (ci > 0 || ei > 0) ==> occ@[first] > 0,
                decreases cl - ei,
            {
                proof {
                    assert(cycle_edges_ok(graph, cycles@[ci as int]@));
                }
                let e = cyc[ei];
                let cur = occ[e];
                proof {
                    lemma_count_headroom(ci as int, ei as int);
                }
                occ.set(e, cur + 1);
                proof {
                    let ghost occ_pre = occ@.update(e as int, cur);
                    assert(cyc@.take(ei + 1).drop_last() =~= cyc@.take(ei as int));
                    assert(cyc@.take(ei + 1).last() == cyc@[ei as int]);
                    assert forall|x: int|
                        0 <= x < ne implies (#[trigger] occ@[x]) == occ_of(
                        cycles@.take(ci as int),
                        x,
                    ) + count_in(cyc@.take(ei + 1), x) && occ@[x] <= (ci as int) * (
                    usize::MAX as int) + (ei + 1) by {
                        if x == e as int {
                            assert(count_in(cyc@.take(ei + 1), x) == count_in(
                                cyc@.take(ei as int),
                                x,
                            ) + 1);
                        } else {
                            assert(count_in(cyc@.take(ei + 1), x) == count_in(
                                cyc@.take(ei as int),
                                x,
                            ));
                        }
                    }
                }
                ei = ei + 1;
            }
            proof {
                assert(cycle_edges_ok(graph, cycles@[ci as int]@));
                assert(cyc@.len() >= 1);
                assert(cycles@.take(ci + 1).drop_last() =~= cycles@.take(ci as int));
                assert(cycles@.take(ci + 1).last() == cycles@[ci as int]);
                assert(cyc@.take(cl as int) =~= cyc@);
                assert forall|x: int|
                    0 <= x < ne implies (#[trigger] occ@[x]) == occ_of(cycles@.take(ci + 1), x)
                    && occ@[x] <= ((ci + 1) as int) * (usize::MAX as int) by {
                    assert(occ_of(cycles@.take(ci + 1), x) == occ_of(cycles@.take(ci as int), x)
                        + count_in(cycles@[ci as int]@, x));
                    assert(cl as int <= usize::MAX as int);
                    assert(((ci + 1) as int) * (usize::MAX as int) == (ci as int) * (
                    usize::MAX as int) + (usize::MAX as int)) by (nonlinear_arith);
                }
            }
            ci = ci + 1;
        }
        proof {
            assert(cycles@.take(cycles@.len() as int) =~= cycles@);
        }
        let mut best: usize = 0;
        let mut best_occ: u128 = 0;
        let mut e: usize = 0;
        proof {
            assert(best_edge_upto(cycles@, 0) == (0int, 0nat));
        }
        while e < ne
            invariant
                graph.wf(),
                ne == graph.edges@.len(),
                occ@.len() == ne,
                e <= ne,
                forall|x: int| 0 <= x < ne ==> (#[trigger] occ@[x]) == occ_of(cycles@, x),
                forall|i: int|
                    0 <= i < occ@.len() && (#[trigger] occ@[i]) > 0 ==> graph.edges@[i].kind
                        == EdgeKind::Plain,
                forall|i: int| 0 <= i < e ==> (#[trigger] occ@[i]) <= best_occ,
                best_occ > 0 ==> best < ne && occ@[best as int] == best_occ,
                best as int == best_edge_upto(cycles@, e as int).0,
                best_occ as nat == best_edge_upto(cycles@, e as int).1,
            decreases ne - e,
        {
            if occ[e] > best_occ {
                best = e;
                best_occ = occ[e];
            }
            e = e + 1;
        }
        proof {
            assert(cycles_ok(graph, cycles@));
            assert(cycle_edges_ok(graph, cycles@[0]@));
            assert(cycles@[0]@[0] < graph.edges@.len());
            assert(occ@[cycles@[0]@[0] as int] > 0);
            assert(best_occ > 0);
            assert(graph.edges@[best as int].kind == EdgeKind::Plain);
            assert(best as int == spec_selected_edge(cycles@, g_top.edges@.len() as int));
        }
        let ghost edges_mid = graph.edges@;
        let ghost steps_pre = steps;
        graph.set_edge_kind(best, EdgeKind::Boxed);
        proof {
            steps = steps.push((g_top, cycles));
            lemma_plain_count_update(
                edges_mid,
                best as int,
                Edge {
                    source: edges_mid[best as int].source,
                    target: edges_mid[best as int].target,
                    kind: EdgeKind::Boxed,
                },
            );
            assert(plain_count(graph.edges@) < plain_count(edges_mid));
            assert forall|i: int|
                0 <= i < old(graph).edges@.len() implies (#[trigger] graph.edges@[i]).source
                == (#[trigger] old(graph).edges@[i]).source && graph.edges@[i].target == old(
                graph,
            ).edges@[i].target && (graph.edges@[i].kind == old(graph).edges@[i].kind || (old(
                graph,
            ).edges@[i].kind == EdgeKind::Plain && graph.edges@[i].kind == EdgeKind::Boxed)) by {
                assert(edges_mid[i].source == old(graph).edges@[i].source);
            }
            if plain_acyclic(old(graph)) {
                lemma_acyclic_same_edges(old(graph), &g_top);
                assert(plain_acyclic(&g_top));
                assert(false);
            }
            assert(boxed_one(g_top, *graph, cycles@));
            assert(steps.last() == (g_top, cycles));
            assert(steps[0] == if steps_pre.len() == 0 {
                (g_top, cycles)
            } else {
                steps_pre[0]
            });
            assert forall|i: int|
                0 <= i < steps.len() implies ((#[trigger] steps[i]).1)@.len() > 0 && cycles_ok(
                &steps[i].0,
                steps[i].1@,
            ) by {
                if i < steps_pre.len() {
                    assert(steps[i] == steps_pre[i]);
                }
            }
            assert forall|i: int|
                0 < i < steps.len() implies boxed_one(
                steps[i - 1].0,
                (#[trigger] steps[i]).0,
                steps[i - 1].1@,
            ) by {
                if i < steps_pre.len() {
                    assert(steps[i] == steps_pre[i] && steps[i - 1] == steps_pre[i - 1]);
                } else {
                    assert(steps[i] == (g_top, cycles));
                    if steps_pre.len() > 0 {
                        assert(steps[i - 1] == steps_pre[i - 1]);
                        assert(boxed_one(steps_pre.last().0, g_top, steps_pre.last().1@));
                    }
                }
            }
        }
    }
}

impl DependencyAnalyzer {
    /// Break all cycles of the graph's `Plain` subgraph; see
    /// [`remove_cycles`].
    pub fn remove_cycles(graph: &mut ReferenceGraph)
        requires
            old(graph).wf(),
        ensures
            final (graph).wf(),
            resolve_rel(old(graph), final (graph)),
            exists|steps: Seq<(ReferenceGraph, Vec<Vec<usize>>)>|
                resolve_trace(*old(graph), *final (graph), steps),
    {
        remove_cycles(graph)
    }
}

} // verus!
