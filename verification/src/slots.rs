//! How replacing one hyperedge slot changes adjacency sets, steps and the
//! structural invariants of the hypergraph model.
use vstd::prelude::*;
use vstd::set_lib::lemma_len_subset;
use crate::graph_spec::{EdgeView, GraphView};
use crate::ids::strictly_sorted;
use crate::paths::{lemma_fewer_steps_acyclic, lemma_same_steps_acyclic, lemma_with_edge_step};

verus! {

/// Replacing slot `e` changes each adjacency set only at `e`.
pub proof fn lemma_slot_sets(g0: GraphView, e: u64, new: EdgeView)
    requires
        e < g0.edges.len(),
    ensures
        forall|n: u64| #[trigger] g0.with_slot(e as int, new).out_set(n) == (if new.alive && new.sources.contains(n) {
            g0.out_set(n).insert(e)
        } else {
            g0.out_set(n).remove(e)
        }),
        forall|n: u64| #[trigger] g0.with_slot(e as int, new).in_set(n) == (if new.alive && new.destinations.contains(n) {
            g0.in_set(n).insert(e)
        } else {
            g0.in_set(n).remove(e)
        }),
{
    let g1 = g0.with_slot(e as int, new);
    assert forall|n: u64| #[trigger] g1.out_set(n) == (if new.alive && new.sources.contains(n) {
        g0.out_set(n).insert(e)
    } else {
        g0.out_set(n).remove(e)
    }) by {
        if new.alive && new.sources.contains(n) {
            assert(g1.out_set(n) =~= g0.out_set(n).insert(e));
        } else {
            assert(g1.out_set(n) =~= g0.out_set(n).remove(e));
        }
    }
    assert forall|n: u64| #[trigger] g1.in_set(n) == (if new.alive && new.destinations.contains(n) {
        g0.in_set(n).insert(e)
    } else {
        g0.in_set(n).remove(e)
    }) by {
        if new.alive && new.destinations.contains(n) {
            assert(g1.in_set(n) =~= g0.in_set(n).insert(e));
        } else {
            assert(g1.in_set(n) =~= g0.in_set(n).remove(e));
        }
    }
}

/// Filling a dead slot with a live hyperedge gives the same steps as appending it.
pub proof fn lemma_activate_steps(g0: GraphView, e: int, s: Seq<u64>, d: Seq<u64>)
    requires
        0 <= e < g0.edges.len(),
        !g0.edges[e].alive,
    ensures
        forall|u: u64, v: u64| #[trigger] g0.with_slot(e, EdgeView { alive: true, sources: s, destinations: d }).step(u, v)
            == g0.with_edge(s, d).step(u, v),
{
    let g1 = g0.with_slot(e, EdgeView { alive: true, sources: s, destinations: d });
    assert forall|u: u64, v: u64| #[trigger] g1.step(u, v) == g0.with_edge(s, d).step(u, v) by {
        lemma_with_edge_step(g0, s, d, u, v);
        if g1.step(u, v) {
            let k = choose|k: int|
                #![trigger g1.edges[k].sources.contains(u), g1.edges[k].destinations.contains(v)]
                g1.edge_alive(k) && g1.edges[k].sources.contains(u) && g1.edges[k].destinations.contains(v);
            if k != e {
                assert(g0.edge_alive(k) && g0.edges[k].sources.contains(u) && g0.edges[k].destinations.contains(v));
            }
        }
        if g0.step(u, v) {
            let k = choose|k: int|
                #![trigger g0.edges[k].sources.contains(u), g0.edges[k].destinations.contains(v)]
                g0.edge_alive(k) && g0.edges[k].sources.contains(u) && g0.edges[k].destinations.contains(v);
            assert(k != e);
            assert(g1.edge_alive(k) && g1.edges[k].sources.contains(u) && g1.edges[k].destinations.contains(v));
        }
        if s.contains(u) && d.contains(v) {
            assert(g1.edge_alive(e) && g1.edges[e].sources.contains(u) && g1.edges[e].destinations.contains(v));
        }
    }
}

/// Killing a slot only removes steps.
pub proof fn lemma_deactivate_steps(g0: GraphView, e: int, new: EdgeView)
    requires
        0 <= e < g0.edges.len(),
        !new.alive,
    ensures
        forall|u: u64, v: u64| #[trigger] g0.with_slot(e, new).step(u, v) ==> g0.step(u, v),
{
    let g1 = g0.with_slot(e, new);
    assert forall|u: u64, v: u64| #[trigger] g1.step(u, v) implies g0.step(u, v) by {
        let k = choose|k: int|
            #![trigger g1.edges[k].sources.contains(u), g1.edges[k].destinations.contains(v)]
            g1.edge_alive(k) && g1.edges[k].sources.contains(u) && g1.edges[k].destinations.contains(v);
        assert(k != e);
        assert(g0.edge_alive(k) && g0.edges[k].sources.contains(u) && g0.edges[k].destinations.contains(v));
    }
}

/// All adjacency sets of the graph are finite.
pub open spec fn sets_finite(g: GraphView) -> bool {
    &&& forall|n: u64| #[trigger] g.out_set(n).finite()
    &&& forall|n: u64| #[trigger] g.in_set(n).finite()
}

/// Killing a live hyperedge keeps the structural invariants.
pub proof fn lemma_detach_well_formed(g0: GraphView, e: u64)
    requires
        g0.well_formed(),
        sets_finite(g0),
        g0.edge_alive(e as int),
    ensures
        g0.with_slot(e as int, EdgeView { alive: false, ..g0.edges[e as int] }).well_formed(),
        sets_finite(g0.with_slot(e as int, EdgeView { alive: false, ..g0.edges[e as int] })),
{
    let new = EdgeView { alive: false, ..g0.edges[e as int] };
    let g1 = g0.with_slot(e as int, new);
    lemma_slot_sets(g0, e, new);
    assert forall|k: int| #[trigger] g1.edge_alive(k) implies g1.edge_ok(k) by {
        assert(g0.edge_alive(k));
        assert(g0.edge_ok(k));
        let edge = g1.edges[k];
        assert forall|j: int| 0 <= j < edge.sources.len() implies g1.node_alive(#[trigger] edge.sources[j]) by {
            assert(g0.node_alive(edge.sources[j]));
        }
        assert forall|j: int| 0 <= j < edge.destinations.len() implies g1.node_alive(#[trigger] edge.destinations[j]) by {
            assert(g0.node_alive(edge.destinations[j]));
        }
    }
    assert forall|e1: int, e2: int|
        #![trigger g1.edges[e1], g1.edges[e2]]
        g1.edge_alive(e1) && g1.edge_alive(e2) && e1 != e2 implies !(g1.edges[e1].sources
            == g1.edges[e2].sources && g1.edges[e1].destinations == g1.edges[e2].destinations) by {
        assert(g0.edge_alive(e1) && g0.edge_alive(e2));
        assert(g0.edges[e1] == g1.edges[e1] && g0.edges[e2] == g1.edges[e2]);
    }
    assert forall|n: u64| g1.node_alive(n) && g1.config.max_out_degree is Some implies #[trigger] g1.out_set(n).len()
        <= g1.config.max_out_degree->0 by {
        assert(g0.out_set(n).finite());
        lemma_len_subset(g1.out_set(n), g0.out_set(n));
        assert(g0.node_alive(n));
        assert(g0.out_set(n).len() <= g0.config.max_out_degree->0);
    }
    assert forall|n: u64| g1.node_alive(n) && g1.config.max_in_degree is Some implies #[trigger] g1.in_set(n).len()
        <= g1.config.max_in_degree->0 by {
        assert(g0.in_set(n).finite());
        lemma_len_subset(g1.in_set(n), g0.in_set(n));
        assert(g0.node_alive(n));
        assert(g0.in_set(n).len() <= g0.config.max_in_degree->0);
    }
    if g0.config.causal_mode {
        lemma_deactivate_steps(g0, e as int, new);
        lemma_fewer_steps_acyclic(g0, g1);
    }
    assert forall|n: u64| #[trigger] g1.out_set(n).finite() by {
        assert(g0.out_set(n).finite());
    }
    assert forall|n: u64| #[trigger] g1.in_set(n).finite() by {
        assert(g0.in_set(n).finite());
    }
}

/// When no cap check fails from position `i` on, every later node is live
/// and has room for one more hyperedge.
pub proof fn lemma_no_cap_violation(g: GraphView, nodes: Seq<u64>, cap: usize, outbound: bool, i: int)
    requires
        0 <= i,
        g.first_cap_violation(nodes, cap, outbound, i) is None,
    ensures
        forall|k: int| i <= k < nodes.len() ==> #[trigger] g.node_alive(nodes[k]) && (if outbound {
            g.out_degree(nodes[k])
        } else {
            g.in_degree(nodes[k])
        }) + 1 <= cap,
    decreases nodes.len() - i,
{
    if i < nodes.len() {
        lemma_no_cap_violation(g, nodes, cap, outbound, i + 1);
    }
}

/// When no node from position `i` on is unknown, every later node is live.
pub proof fn lemma_no_unknown(g: GraphView, nodes: Seq<u64>, i: int)
    requires
        0 <= i,
        g.first_unknown(nodes, i) is None,
    ensures
        forall|k: int| i <= k < nodes.len() ==> #[trigger] g.node_alive(nodes[k]),
    decreases nodes.len() - i,
{
    if i < nodes.len() {
        lemma_no_unknown(g, nodes, i + 1);
    }
}

/// Graphs with the same liveness and adjacency sets agree on every cap check.
pub proof fn lemma_same_cap_checks(g1: GraphView, g2: GraphView, nodes: Seq<u64>, cap: usize, outbound: bool, i: int)
    requires
        g1.nodes == g2.nodes,
        forall|n: u64| #[trigger] g1.out_set(n) == g2.out_set(n),
        forall|n: u64| #[trigger] g1.in_set(n) == g2.in_set(n),
    ensures
        g1.first_cap_violation(nodes, cap, outbound, i) == g2.first_cap_violation(nodes, cap, outbound, i),
        g1.first_unknown(nodes, i) == g2.first_unknown(nodes, i),
    decreases nodes.len() - i,
{
    if 0 <= i < nodes.len() {
        lemma_same_cap_checks(g1, g2, nodes, cap, outbound, i + 1);
        assert(g1.out_set(nodes[i]) == g2.out_set(nodes[i]));
        assert(g1.in_set(nodes[i]) == g2.in_set(nodes[i]));
    }
}

/// Appending a dead slot changes none of the attach checks.
pub proof fn lemma_push_dead(g0: GraphView, dead: EdgeView, s: Seq<u64>, d: Seq<u64>)
    requires
        !dead.alive,
    ensures
        ({
            let g1 = GraphView { config: g0.config, nodes: g0.nodes, edges: g0.edges.push(dead) };
            &&& forall|n: u64| #[trigger] g1.out_set(n) == g0.out_set(n)
            &&& forall|n: u64| #[trigger] g1.in_set(n) == g0.in_set(n)
            &&& g1.attach_error(s, d) == g0.attach_error(s, d)
            &&& (g0.well_formed() ==> g1.well_formed())
            &&& (sets_finite(g0) ==> sets_finite(g1))
            &&& g1.with_slot(g0.edges.len() as int, EdgeView { alive: true, sources: s, destinations: d })
                == g0.with_edge(s, d)
        }),
{
    let g1 = GraphView { config: g0.config, nodes: g0.nodes, edges: g0.edges.push(dead) };
    let len = g0.edges.len() as int;
    assert forall|n: u64| #[trigger] g1.out_set(n) == g0.out_set(n) by {
        assert(g1.out_set(n) =~= g0.out_set(n));
    }
    assert forall|n: u64| #[trigger] g1.in_set(n) == g0.in_set(n) by {
        assert(g1.in_set(n) =~= g0.in_set(n));
    }
    assert forall|u: u64, v: u64| #[trigger] g1.step(u, v) == g0.step(u, v) by {
        if g1.step(u, v) {
            let k = choose|k: int|
                #![trigger g1.edges[k].sources.contains(u), g1.edges[k].destinations.contains(v)]
                g1.edge_alive(k) && g1.edges[k].sources.contains(u) && g1.edges[k].destinations.contains(v);
            assert(k < len);
            assert(g0.edge_alive(k) && g0.edges[k].sources.contains(u) && g0.edges[k].destinations.contains(v));
        }
        if g0.step(u, v) {
            let k = choose|k: int|
                #![trigger g0.edges[k].sources.contains(u), g0.edges[k].destinations.contains(v)]
                g0.edge_alive(k) && g0.edges[k].sources.contains(u) && g0.edges[k].destinations.contains(v);
            assert(g1.edge_alive(k) && g1.edges[k].sources.contains(u) && g1.edges[k].destinations.contains(v));
        }
    }
    assert forall|u: u64, v: u64| #[trigger] g1.with_edge(s, d).step(u, v) == g0.with_edge(s, d).step(u, v) by {
        lemma_with_edge_step(g0, s, d, u, v);
        lemma_with_edge_step(g1, s, d, u, v);
    }
    lemma_same_steps_acyclic(g0.with_edge(s, d), g1.with_edge(s, d));
    lemma_same_steps_acyclic(g0, g1);
    if g0.has_signature(s, d) {
        let k = choose|k: int| #[trigger] g0.edges[k] == (EdgeView { alive: true, sources: s, destinations: d }) && 0 <= k < g0.edges.len();
        assert(g1.edges[k] == g0.edges[k]);
    }
    if g1.has_signature(s, d) {
        let k = choose|k: int| #[trigger] g1.edges[k] == (EdgeView { alive: true, sources: s, destinations: d }) && 0 <= k < g1.edges.len();
        assert(k != len);
        assert(g0.edges[k] == g1.edges[k]);
    }
    match g0.config.max_out_degree {
        Some(cap) => lemma_same_cap_checks(g1, g0, s, cap, true, 0),
        None => {},
    }
    match g0.config.max_in_degree {
        Some(cap) => lemma_same_cap_checks(g1, g0, d, cap, false, 0),
        None => {},
    }
    lemma_same_cap_checks(g1, g0, s, 0, true, 0);
    lemma_same_cap_checks(g1, g0, d, 0, true, 0);
    if g0.well_formed() {
        assert forall|k: int| #[trigger] g1.edge_alive(k) implies g1.edge_ok(k) by {
            assert(g0.edge_alive(k));
            assert(g0.edge_ok(k));
            let edge = g1.edges[k];
            assert forall|j: int| 0 <= j < edge.sources.len() implies g1.node_alive(#[trigger] edge.sources[j]) by {
                assert(g0.node_alive(edge.sources[j]));
            }
            assert forall|j: int| 0 <= j < edge.destinations.len() implies g1.node_alive(#[trigger] edge.destinations[j]) by {
                assert(g0.node_alive(edge.destinations[j]));
            }
        }
        assert forall|e1: int, e2: int|
            #![trigger g1.edges[e1], g1.edges[e2]]
            g1.edge_alive(e1) && g1.edge_alive(e2) && e1 != e2 implies !(g1.edges[e1].sources
                == g1.edges[e2].sources && g1.edges[e1].destinations == g1.edges[e2].destinations) by {
            assert(g0.edge_alive(e1) && g0.edge_alive(e2));
            assert(g0.edges[e1] == g1.edges[e1] && g0.edges[e2] == g1.edges[e2]);
        }
        assert forall|n: u64| g1.node_alive(n) && g1.config.max_out_degree is Some implies #[trigger] g1.out_set(n).len()
            <= g1.config.max_out_degree->0 by {
            assert(g0.node_alive(n));
            assert(g0.out_set(n).len() <= g0.config.max_out_degree->0);
        }
        assert forall|n: u64| g1.node_alive(n) && g1.config.max_in_degree is Some implies #[trigger] g1.in_set(n).len()
            <= g1.config.max_in_degree->0 by {
            assert(g0.node_alive(n));
            assert(g0.in_set(n).len() <= g0.config.max_in_degree->0);
        }
    }
    if sets_finite(g0) {
        assert forall|n: u64| #[trigger] g1.out_set(n).finite() by {
            assert(g0.out_set(n).finite());
        }
        assert forall|n: u64| #[trigger] g1.in_set(n).finite() by {
            assert(g0.in_set(n).finite());
        }
    }
    assert(g1.with_slot(len, EdgeView { alive: true, sources: s, destinations: d }).edges =~= g0.with_edge(s, d).edges);
}

/// Filling a dead slot with endpoints that pass every attach check keeps the
/// structural invariants.
pub proof fn lemma_attach_well_formed(g0: GraphView, e: u64, s: Seq<u64>, d: Seq<u64>)
    requires
        g0.well_formed(),
        sets_finite(g0),
        e < g0.edges.len(),
        !g0.edges[e as int].alive,
        strictly_sorted(s),
        strictly_sorted(d),
        s.len() > 0,
        d.len() > 0,
        g0.attach_error(s, d) is None,
    ensures
        g0.with_slot(e as int, EdgeView { alive: true, sources: s, destinations: d }).well_formed(),
        sets_finite(g0.with_slot(e as int, EdgeView { alive: true, sources: s, destinations: d })),
{
    let new = EdgeView { alive: true, sources: s, destinations: d };
    let g1 = g0.with_slot(e as int, new);
    lemma_slot_sets(g0, e, new);
    assert(g0.first_unknown(s, 0) is None);
    assert(g0.first_unknown(d, 0) is None);
    lemma_no_unknown(g0, s, 0);
    lemma_no_unknown(g0, d, 0);
    assert forall|k: int| #[trigger] g1.edge_alive(k) implies g1.edge_ok(k) by {
        if k != e {
            assert(g0.edge_alive(k));
            assert(g0.edge_ok(k));
        }
        let edge = g1.edges[k];
        assert forall|j: int| 0 <= j < edge.sources.len() implies g1.node_alive(#[trigger] edge.sources[j]) by {
            assert(g0.node_alive(edge.sources[j]));
        }
        assert forall|j: int| 0 <= j < edge.destinations.len() implies g1.node_alive(#[trigger] edge.destinations[j]) by {
            assert(g0.node_alive(edge.destinations[j]));
        }
    }
    assert(!g0.has_signature(s, d));
    assert forall|e1: int, e2: int|
        #![trigger g1.edges[e1], g1.edges[e2]]
        g1.edge_alive(e1) && g1.edge_alive(e2) && e1 != e2 implies !(g1.edges[e1].sources
            == g1.edges[e2].sources && g1.edges[e1].destinations == g1.edges[e2].destinations) by {
        if e1 == e {
            assert(g0.edge_alive(e2));
            if g1.edges[e1].sources == g1.edges[e2].sources && g1.edges[e1].destinations == g1.edges[e2].destinations {
                assert(g0.edges[e2] == (EdgeView { alive: true, sources: s, destinations: d }));
            }
        } else if e2 == e {
            assert(g0.edge_alive(e1));
            if g1.edges[e1].sources == g1.edges[e2].sources && g1.edges[e1].destinations == g1.edges[e2].destinations {
                assert(g0.edges[e1] == (EdgeView { alive: true, sources: s, destinations: d }));
            }
        } else {
            assert(g0.edge_alive(e1) && g0.edge_alive(e2));
            assert(g0.edges[e1] == g1.edges[e1] && g0.edges[e2] == g1.edges[e2]);
        }
    }
    assert forall|n: u64| g1.node_alive(n) && g1.config.max_out_degree is Some implies #[trigger] g1.out_set(n).len()
        <= g1.config.max_out_degree->0 by {
        let cap = g1.config.max_out_degree->0;
        assert(g0.out_set(n).finite());
        assert(!g0.out_set(n).contains(e));
        assert(g0.out_set(n).remove(e) =~= g0.out_set(n));
        if s.contains(n) {
            assert(g0.first_cap_violation(s, cap, true, 0) is None);
            lemma_no_cap_violation(g0, s, cap, true, 0);
            let k = choose|k: int| 0 <= k < s.len() && s[k] == n;
            assert(g0.node_alive(s[k]));
        } else {
            assert(g0.node_alive(n));
            assert(g0.out_set(n).len() <= cap);
        }
    }
    assert forall|n: u64| g1.node_alive(n) && g1.config.max_in_degree is Some implies #[trigger] g1.in_set(n).len()
        <= g1.config.max_in_degree->0 by {
        let cap = g1.config.max_in_degree->0;
        assert(g0.in_set(n).finite());
        assert(!g0.in_set(n).contains(e));
        assert(g0.in_set(n).remove(e) =~= g0.in_set(n));
        if d.contains(n) {
            assert(g0.first_cap_violation(d, cap, false, 0) is None);
            lemma_no_cap_violation(g0, d, cap, false, 0);
            let k = choose|k: int| 0 <= k < d.len() && d[k] == n;
            assert(g0.node_alive(d[k]));
        } else {
            assert(g0.node_alive(n));
            assert(g0.in_set(n).len() <= cap);
        }
    }
    if g0.config.causal_mode {
        lemma_activate_steps(g0, e as int, s, d);
        lemma_same_steps_acyclic(g0.with_edge(s, d), g1);
    }
    assert forall|n: u64| #[trigger] g1.out_set(n).finite() by {
        assert(g0.out_set(n).finite());
    }
    assert forall|n: u64| #[trigger] g1.in_set(n).finite() by {
        assert(g0.in_set(n).finite());
    }
}

} // verus!
