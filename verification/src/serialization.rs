//! Plain snapshots of a hypergraph (configuration, node liveness, hyperedge
//! payloads) and the rebuild of a graph from a snapshot.
use vstd::prelude::*;
use crate::errors::AsmError;
use crate::flags::HypergraphConfig;
use crate::graph_spec::{EdgeView, GraphView};
use crate::hypergraph::HypergraphImpl;
use crate::ids::{canonical_of, lemma_canonical_of, raw_ids, strictly_sorted, to_node_ids};
use crate::paths::{lemma_fewer_steps_acyclic, lemma_with_edge_step};
use crate::slots::sets_finite;
use vstd::set_lib::lemma_len_subset;

verus! {

/// A hyperedge slot as stored in a snapshot.
#[derive(Debug)]
pub struct EdgePayload {
    pub alive: bool,
    pub sources: Vec<u64>,
    pub destinations: Vec<u64>,
}

/// Everything needed to rebuild a graph: its configuration, the liveness of
/// each node slot and the payload of each hyperedge slot.
#[derive(Debug)]
pub struct GraphSnapshot {
    pub config: HypergraphConfig,
    pub nodes: Vec<bool>,
    pub edges: Vec<EdgePayload>,
}

impl View for GraphSnapshot {
    type V = GraphView;

    open spec fn view(&self) -> GraphView {
        GraphView {
            config: self.config,
            nodes: self.nodes@,
            edges: self.edges@.map_values(
                |p: EdgePayload| EdgeView { alive: p.alive, sources: p.sources@, destinations: p.destinations@ },
            ),
        }
    }
}

/// Captures the graph as a snapshot.
pub fn snapshot_of(graph: &HypergraphImpl) -> (snap: GraphSnapshot)
    ensures
        snap@ == graph@,
{
    let nodes = graph.node_states();
    let mut edges: Vec<EdgePayload> = Vec::new();
    let count = graph.edge_slot_count();
    let mut i: usize = 0;
    while i < count
        invariant
            count == graph@.edges.len(),
            i <= count,
            edges@.len() == i,
            forall|k: int| 0 <= k < i ==> (EdgeView {
                alive: (#[trigger] edges@[k]).alive,
                sources: edges@[k].sources@,
                destinations: edges@[k].destinations@,
            }) == graph@.edges[k],
        decreases count - i,
    {
        let (alive, sources, destinations) = graph.edge_payload(i);
        edges.push(EdgePayload { alive, sources, destinations });
        i = i + 1;
    }
    let snap = GraphSnapshot { config: *graph.config(), nodes, edges };
    proof {
        assert(snap@.edges =~= graph@.edges);
    }
    snap
}

/// The graph holding the snapshot's nodes and no hyperedge.
pub open spec fn rebuild_base(snap: GraphView) -> GraphView {
    GraphView { config: snap.config, nodes: snap.nodes, edges: Seq::empty() }
}

/// The outcome of rebuilding from a snapshot after its first `k` hyperedge
/// slots: live payloads are added as new hyperedges (which may fail), dead
/// payloads are appended as dead slots.
pub open spec fn rebuild(snap: GraphView, k: nat) -> Result<GraphView, AsmError>
    decreases k,
{
    if k == 0 {
        Ok(rebuild_base(snap))
    } else {
        match rebuild(snap, (k - 1) as nat) {
            Err(e) => Err(e),
            Ok(g) => {
                let edge = snap.edges[k - 1];
                if edge.alive {
                    match g.add_edge_error(edge.sources, edge.destinations) {
                        Some(e) => Err(e),
                        None => Ok(g.with_edge(canonical_of(edge.sources), canonical_of(edge.destinations))),
                    }
                } else {
                    Ok(GraphView { config: g.config, nodes: g.nodes, edges: g.edges.push(edge) })
                }
            },
        }
    }
}

/// Rebuilds a graph from a snapshot: nodes first (dead slots are added then
/// removed), then each hyperedge slot in order.
pub fn into_graph(snapshot: GraphSnapshot) -> (r: Result<HypergraphImpl, AsmError>)
    requires
        snapshot.nodes@.len() + 1 < usize::MAX,
        snapshot.edges@.len() + 1 < usize::MAX,
    ensures
        match r {
            Ok(g) => g.wf() && rebuild(snapshot@, snapshot@.edges.len()) == Ok::<GraphView, AsmError>(g@),
            Err(e) => rebuild(snapshot@, snapshot@.edges.len()) == Err::<GraphView, AsmError>(e),
        },
{
    let ghost snap = snapshot@;
    let nodes = &snapshot.nodes;
    let edges = &snapshot.edges;
    let mut graph = HypergraphImpl::new(snapshot.config);
    proof {
        assert(snap.nodes.take(0) =~= Seq::<bool>::empty());
    }
    let mut i: usize = 0;
    while i < nodes.len()
        invariant
            graph.wf(),
            snap == snapshot@,
            i <= nodes@.len(),
            nodes@ == snap.nodes,
            nodes@.len() + 1 < usize::MAX,
            graph@ == (GraphView { config: snap.config, nodes: snap.nodes.take(i as int), edges: Seq::empty() }),
        decreases nodes@.len() - i,
    {
        let id = graph.add_node();
        let id = match id {
            Ok(id) => id,
            Err(_) => { return Err(AsmError::NoNodes); },
        };
        if !nodes[i] {
            let ghost before = graph@;
            proof {
                assert(graph@.node_alive(id.raw));
                assert(graph@.out_set(id.raw) =~= Set::<u64>::empty());
                assert(graph@.in_set(id.raw) =~= Set::<u64>::empty());
            }
            let removed = graph.remove_node(id);
            proof {
                assert(removed is Ok);
            }
        }
        proof {
            assert(graph@.nodes =~= snap.nodes.take(i + 1));
            assert(graph@.edges =~= Seq::<EdgeView>::empty());
        }
        i = i + 1;
    }
    proof {
        assert(snap.nodes.take(nodes@.len() as int) =~= snap.nodes);
    }
    let mut k: usize = 0;
    let n_edges = edges.len();
    while k < n_edges
        invariant
            graph.wf(),
            snap == snapshot@,
            k <= n_edges,
            n_edges == edges@.len(),
            n_edges + 1 < usize::MAX,
            graph@.edges.len() == k,
            snap.edges.len() == n_edges,
            forall|j: int| 0 <= j < n_edges ==> (EdgeView {
                alive: (#[trigger] edges@[j]).alive,
                sources: edges@[j].sources@,
                destinations: edges@[j].destinations@,
            }) == snap.edges[j],
            rebuild(snap, k as nat) == Ok::<GraphView, AsmError>(graph@),
        decreases n_edges - k,
    {
        let payload = &edges[k];
        proof {
            assert(snap.edges[k as int].sources == payload.sources@);
        }
        if payload.alive {
            let s = to_node_ids(&payload.sources);
            let d = to_node_ids(&payload.destinations);
            let added = graph.add_hyperedge(s.as_slice(), d.as_slice());
            match added {
                Ok(_) => {},
                Err(e) => {
                    proof {
                        assert(raw_ids(s@) == snap.edges[k as int].sources);
                        assert(raw_ids(d@) == snap.edges[k as int].destinations);
                        assert(snap.edges[k as int].alive);
                        assert(rebuild(snap, (k + 1) as nat) == Err::<GraphView, AsmError>(e));
                        lemma_rebuild_stops(snap, (k + 1) as nat, snap.edges.len());
                    }
                    return Err(e);
                },
            }
        } else {
            graph.push_dead_edge(crate::ids::copy_raw(&payload.sources), crate::ids::copy_raw(&payload.destinations));
        }
        k = k + 1;
    }
    Ok(graph)
}

/// Once the rebuild fails it keeps the same error to the end.
pub proof fn lemma_rebuild_stops(snap: GraphView, k: nat, m: nat)
    requires
        k <= m,
        rebuild(snap, k) is Err,
    ensures
        rebuild(snap, m) == rebuild(snap, k),
    decreases m - k,
{
    if k < m {
        lemma_rebuild_stops(snap, k, (m - 1) as nat);
    }
}

/// The graph restricted to its first `k` hyperedge slots.
pub open spec fn prefix(g: GraphView, k: int) -> GraphView {
    GraphView { config: g.config, nodes: g.nodes, edges: g.edges.take(k) }
}

proof fn lemma_cap_checks_pass(g: GraphView, nodes: Seq<u64>, cap: usize, outbound: bool, i: int)
    requires
        0 <= i,
        forall|j: int| i <= j < nodes.len() ==> #[trigger] g.has_room(nodes[j], cap, outbound),
    ensures
        g.first_cap_violation(nodes, cap, outbound, i) is None,
        g.first_unknown(nodes, i) is None,
    decreases nodes.len() - i,
{
    if i < nodes.len() {
        assert(g.has_room(nodes[i], cap, outbound));
        lemma_cap_checks_pass(g, nodes, cap, outbound, i + 1);
    }
}

proof fn lemma_prefix_sets(g: GraphView, k: int, n: u64)
    requires
        0 <= k < g.edges.len(),
        g.edges.len() <= u64::MAX,
        sets_finite(g),
    ensures
        prefix(g, k).out_set(n).subset_of(g.out_set(n)),
        prefix(g, k).in_set(n).subset_of(g.in_set(n)),
        !prefix(g, k).out_set(n).contains(k as u64),
        !prefix(g, k).in_set(n).contains(k as u64),
        g.edge_alive(k) && g.edges[k].sources.contains(n) ==> prefix(g, k).out_degree(n) + 1 <= g.out_degree(n),
        g.edge_alive(k) && g.edges[k].destinations.contains(n) ==> prefix(g, k).in_degree(n) + 1 <= g.in_degree(n),
{
    let p = prefix(g, k);
    assert(g.out_set(n).finite());
    assert(g.in_set(n).finite());
    assert forall|e: u64| #[trigger] p.out_set(n).contains(e) implies g.out_set(n).contains(e) by {
        assert(p.edges[e as int] == g.edges[e as int]);
    }
    assert forall|e: u64| #[trigger] p.in_set(n).contains(e) implies g.in_set(n).contains(e) by {
        assert(p.edges[e as int] == g.edges[e as int]);
    }
    if g.edge_alive(k) && g.edges[k].sources.contains(n) {
        assert(g.out_set(n).contains(k as u64));
        assert(p.out_set(n).insert(k as u64).subset_of(g.out_set(n)));
        lemma_len_subset(p.out_set(n).insert(k as u64), g.out_set(n));
        lemma_len_subset(p.out_set(n), g.out_set(n));
    }
    if g.edge_alive(k) && g.edges[k].destinations.contains(n) {
        assert(g.in_set(n).contains(k as u64));
        assert(p.in_set(n).insert(k as u64).subset_of(g.in_set(n)));
        lemma_len_subset(p.in_set(n).insert(k as u64), g.in_set(n));
        lemma_len_subset(p.in_set(n), g.in_set(n));
    }
}

proof fn lemma_rebuild_prefix(g: GraphView, k: nat)
    requires
        g.well_formed(),
        sets_finite(g),
        k <= g.edges.len(),
        g.edges.len() <= u64::MAX,
    ensures
        rebuild(g, k) == Ok::<GraphView, AsmError>(prefix(g, k as int)),
    decreases k,
{
    if k == 0 {
        assert(prefix(g, 0).edges =~= Seq::<EdgeView>::empty());
    } else {
        let j = (k - 1) as int;
        lemma_rebuild_prefix(g, (k - 1) as nat);
        let p = prefix(g, j);
        let edge = g.edges[j];
        if edge.alive {
            assert(g.edge_alive(j));
            assert(g.edge_ok(j));
            let s = edge.sources;
            let d = edge.destinations;
            lemma_canonical_of(s, s);
            lemma_canonical_of(d, d);
            assert(p.config.arity_ok(s.len() as int, d.len() as int));
            match g.config.max_out_degree {
                Some(cap) => {
                    assert forall|i: int| 0 <= i < s.len() implies #[trigger] p.has_room(s[i], cap, true) by {
                        assert(g.node_alive(s[i]));
                        lemma_prefix_sets(g, j, s[i]);
                        assert(g.out_set(s[i]).len() <= cap);
                    }
                    lemma_cap_checks_pass(p, s, cap, true, 0);
                },
                None => {},
            }
            match g.config.max_in_degree {
                Some(cap) => {
                    assert forall|i: int| 0 <= i < d.len() implies #[trigger] p.has_room(d[i], cap, false) by {
                        assert(g.node_alive(d[i]));
                        lemma_prefix_sets(g, j, d[i]);
                        assert(g.in_set(d[i]).len() <= cap);
                    }
                    lemma_cap_checks_pass(p, d, cap, false, 0);
                },
                None => {},
            }
            assert(p.first_unknown(s, 0) is None) by {
                assert forall|i: int| 0 <= i < s.len() implies #[trigger] p.node_alive(s[i]) by {
                    assert(g.node_alive(s[i]));
                }
                lemma_unknown_pass(p, s, 0);
            }
            assert(p.first_unknown(d, 0) is None) by {
                assert forall|i: int| 0 <= i < d.len() implies #[trigger] p.node_alive(d[i]) by {
                    assert(g.node_alive(d[i]));
                }
                lemma_unknown_pass(p, d, 0);
            }
            if g.config.causal_mode {
                assert forall|u: u64, v: u64| #[trigger] p.with_edge(s, d).step(u, v) implies g.step(u, v) by {
                    lemma_with_edge_step(p, s, d, u, v);
                    if p.step(u, v) {
                        let e = choose|e: int|
                            #![trigger p.edges[e].sources.contains(u), p.edges[e].destinations.contains(v)]
                            p.edge_alive(e) && p.edges[e].sources.contains(u) && p.edges[e].destinations.contains(v);
                        assert(g.edge_alive(e) && g.edges[e].sources.contains(u) && g.edges[e].destinations.contains(v));
                    } else {
                        assert(g.edge_alive(j) && g.edges[j].sources.contains(u) && g.edges[j].destinations.contains(v));
                    }
                }
                lemma_fewer_steps_acyclic(g, p.with_edge(s, d));
            }
            if p.has_signature(s, d) {
                let e = choose|e: int| #[trigger] p.edges[e] == (EdgeView { alive: true, sources: s, destinations: d }) && 0 <= e < p.edges.len();
                assert(g.edges[e] == p.edges[e]);
                assert(g.edge_alive(e) && g.edge_alive(j) && e != j);
                assert(g.edges[e].sources == g.edges[j].sources && g.edges[e].destinations == g.edges[j].destinations);
            }
            assert(p.with_edge(s, d).edges =~= prefix(g, k as int).edges);
        } else {
            assert(p.edges.push(edge) =~= prefix(g, k as int).edges);
        }
    }
}

proof fn lemma_unknown_pass(g: GraphView, nodes: Seq<u64>, i: int)
    requires
        0 <= i,
        forall|j: int| i <= j < nodes.len() ==> #[trigger] g.node_alive(nodes[j]),
    ensures
        g.first_unknown(nodes, i) is None,
    decreases nodes.len() - i,
{
    if i < nodes.len() {
        assert(g.node_alive(nodes[i]));
        lemma_unknown_pass(g, nodes, i + 1);
    }
}

/// Rebuilding from the snapshot of a graph succeeds and gives back the same
/// graph: every node slot, every hyperedge slot (live or dead, with its
/// endpoints) and the configuration.
pub proof fn lemma_snapshot_roundtrip(graph: &HypergraphImpl)
    requires
        graph.wf(),
    ensures
        rebuild(graph@, graph@.edges.len()) == Ok::<GraphView, AsmError>(graph@),
{
    graph.lemma_wf_sets_finite();
    lemma_rebuild_prefix(graph@, graph@.edges.len());
    assert(prefix(graph@, graph@.edges.len() as int).edges =~= graph@.edges);
}

} // verus!
