//! Deterministic directed hypergraph: slots of nodes and hyperedges, with
//! adjacency lists kept consistent with the hyperedges.
use vstd::prelude::*;
use crate::errors::AsmError;
use crate::flags::{DegreeLimits, HypergraphConfig};
use crate::graph_spec::{EdgeView, GraphView};
use crate::paths::{lemma_same_edges, lemma_reaches_refl, lemma_reaches_step, lemma_closed_contains_reached, lemma_reaches_from_sink, lemma_cycle_iff_reach};
use vstd::set_lib::{set_int_range, lemma_int_range, lemma_len_subset};
use crate::slots::{sets_finite, lemma_slot_sets, lemma_detach_well_formed, lemma_attach_well_formed, lemma_push_dead};
use crate::ids::{vec_eq_raw, contains_raw, lemma_sorted_bounded_len, NodeId, EdgeId, raw_ids, wrap_ids, strictly_sorted, canonical_of, canonicalize_nodes, insert_sorted, remove_sorted, copy_raw, to_node_ids, lemma_sorted_len};

verus! {

/// Canonical signature of a hyperedge: its sorted raw sources and destinations.
#[derive(Debug)]
pub struct EdgeSignature {
    sources: Vec<u64>,
    destinations: Vec<u64>,
}

impl EdgeSignature {
    pub closed spec fn spec_sources(&self) -> Seq<u64> {
        self.sources@
    }

    pub closed spec fn spec_destinations(&self) -> Seq<u64> {
        self.destinations@
    }

    /// Builds the signature of a hyperedge from its endpoints.
    pub fn new(sources: &[NodeId], destinations: &[NodeId]) -> (sig: EdgeSignature)
        ensures
            sig.spec_sources() == raw_ids(sources@),
            sig.spec_destinations() == raw_ids(destinations@),
    {
        let mut s: Vec<u64> = Vec::new();
        let mut i: usize = 0;
        while i < sources.len()
            invariant
                i <= sources@.len(),
                s@ == raw_ids(sources@.take(i as int)),
            decreases sources@.len() - i,
        {
            s.push(sources[i].raw);
            proof {
                assert(raw_ids(sources@.take(i + 1)) =~= raw_ids(sources@.take(i as int)).push(
                    sources@[i as int].raw,
                ));
            }
            i = i + 1;
        }
        let mut d: Vec<u64> = Vec::new();
        let mut j: usize = 0;
        while j < destinations.len()
            invariant
                j <= destinations@.len(),
                d@ == raw_ids(destinations@.take(j as int)),
            decreases destinations@.len() - j,
        {
            d.push(destinations[j].raw);
            proof {
                assert(raw_ids(destinations@.take(j + 1)) =~= raw_ids(
                    destinations@.take(j as int),
                ).push(destinations@[j as int].raw));
            }
            j = j + 1;
        }
        proof {
            assert(sources@.take(sources@.len() as int) =~= sources@);
            assert(destinations@.take(destinations@.len() as int) =~= destinations@);
        }
        EdgeSignature { sources: s, destinations: d }
    }

    /// Returns the raw source identifiers used by the signature.
    pub fn raw_sources(&self) -> (s: &[u64])
        ensures
            s@ == self.spec_sources(),
    {
        self.sources.as_slice()
    }

    /// Returns the raw destination identifiers used by the signature.
    pub fn raw_destinations(&self) -> (d: &[u64])
        ensures
            d@ == self.spec_destinations(),
    {
        self.destinations.as_slice()
    }
}

/// The endpoints of a hyperedge.
#[derive(Debug)]
pub struct HyperedgeEndpoints {
    pub sources: Vec<NodeId>,
    pub destinations: Vec<NodeId>,
}

/// The raw identifiers of a sequence of edge ids, in order.
pub open spec fn edge_raw_ids(ids: Seq<EdgeId>) -> Seq<u64> {
    ids.map_values(|e: EdgeId| e.raw)
}

/// Wraps raw identifiers into edge ids.
fn to_edge_ids(raw: &Vec<u64>) -> (ids: Vec<EdgeId>)
    ensures
        edge_raw_ids(ids@) == raw@,
{
    let mut ids: Vec<EdgeId> = Vec::new();
    let mut i: usize = 0;
    while i < raw.len()
        invariant
            i <= raw@.len(),
            edge_raw_ids(ids@) == raw@.take(i as int),
        decreases raw@.len() - i,
    {
        let ghost prev = ids@;
        ids.push(EdgeId { raw: raw[i] });
        proof {
            assert(edge_raw_ids(ids@) =~= edge_raw_ids(prev).push(raw@[i as int]));
            assert(raw@.take(i + 1) =~= raw@.take(i as int).push(raw@[i as int]));
        }
        i = i + 1;
    }
    proof {
        assert(raw@.take(raw@.len() as int) =~= raw@);
    }
    ids
}

/// Merges two strictly increasing vectors into the strictly increasing
/// vector of their union.
fn merge_sorted(a: &Vec<u64>, b: &Vec<u64>) -> (m: Vec<u64>)
    requires
        strictly_sorted(a@),
        strictly_sorted(b@),
    ensures
        strictly_sorted(m@),
        m@.to_set() == a@.to_set().union(b@.to_set()),
{
    let mut m: Vec<u64> = Vec::new();
    let mut i: usize = 0;
    let mut j: usize = 0;
    while i < a.len() || j < b.len()
        invariant
            i <= a@.len(),
            j <= b@.len(),
            strictly_sorted(a@),
            strictly_sorted(b@),
            strictly_sorted(m@),
            m@.to_set() == a@.take(i as int).to_set().union(b@.take(j as int).to_set()),
            forall|k: int| 0 <= k < m@.len() ==> (i < a@.len() ==> m@[k] < a@[i as int]),
            forall|k: int| 0 <= k < m@.len() ==> (j < b@.len() ==> m@[k] < b@[j as int]),
        decreases a@.len() + b@.len() - i - j,
    {
        let ghost old_m = m@;
        if j >= b.len() || (i < a.len() && a[i] < b[j]) {
            let x = a[i];
            m.push(x);
            proof {
                assert(a@.take(i + 1) =~= a@.take(i as int).push(x));
                a@.take(i as int).lemma_push_to_set_commute(x);
                old_m.lemma_push_to_set_commute(x);
                assert forall|k: int| 0 <= k < m@.len() implies (i + 1 < a@.len() ==> m@[k] < a@[i + 1]) by {
                    if k < old_m.len() && i + 1 < a@.len() {
                        assert(a@[i as int] < a@[i + 1]);
                    }
                }
            }
            i = i + 1;
        } else if i >= a.len() || b[j] < a[i] {
            let x = b[j];
            m.push(x);
            proof {
                assert(b@.take(j + 1) =~= b@.take(j as int).push(x));
                b@.take(j as int).lemma_push_to_set_commute(x);
                old_m.lemma_push_to_set_commute(x);
                assert forall|k: int| 0 <= k < m@.len() implies (j + 1 < b@.len() ==> m@[k] < b@[j + 1]) by {
                    if k < old_m.len() && j + 1 < b@.len() {
                        assert(b@[j as int] < b@[j + 1]);
                    }
                }
            }
            j = j + 1;
        } else {
            let x = a[i];
            m.push(x);
            proof {
                assert(a@.take(i + 1) =~= a@.take(i as int).push(x));
                assert(b@.take(j + 1) =~= b@.take(j as int).push(x));
                a@.take(i as int).lemma_push_to_set_commute(x);
                b@.take(j as int).lemma_push_to_set_commute(x);
                old_m.lemma_push_to_set_commute(x);
                assert(m@.to_set() =~= a@.take(i + 1).to_set().union(b@.take(j + 1).to_set()));
                assert forall|k: int| 0 <= k < m@.len() implies (i + 1 < a@.len() ==> m@[k] < a@[i + 1]) by {
                    if k < old_m.len() && i + 1 < a@.len() {
                        assert(a@[i as int] < a@[i + 1]);
                    }
                }
                assert forall|k: int| 0 <= k < m@.len() implies (j + 1 < b@.len() ==> m@[k] < b@[j + 1]) by {
                    if k < old_m.len() && j + 1 < b@.len() {
                        assert(b@[j as int] < b@[j + 1]);
                    }
                }
            }
            i = i + 1;
            j = j + 1;
        }
    }
    proof {
        assert(a@.take(a@.len() as int) =~= a@);
        assert(b@.take(b@.len() as int) =~= b@);
    }
    m
}


/// `v` is reached from some member of `from`.
pub open spec fn reached_from(g: GraphView, from: Seq<u64>, v: u64) -> bool {
    exists|x: u64| #[trigger] from.contains(x) && g.reaches(x, v)
}

/// Every step out of `v` lands on a visited node.
pub open spec fn closed_at(g: GraphView, visited: Seq<bool>, v: u64) -> bool {
    forall|w: u64| #[trigger] g.step(v, w) ==> w < visited.len() && visited[w as int]
}

/// Degree statistics over the live nodes.
#[derive(Debug, Clone, Copy)]
pub struct DegreeBounds {
    pub min_in_degree: Option<usize>,
    pub max_in_degree: Option<usize>,
    pub min_out_degree: Option<usize>,
    pub max_out_degree: Option<usize>,
}

pub open spec fn degree_of(g: GraphView, n: u64, outbound: bool) -> nat {
    if outbound {
        g.out_degree(n)
    } else {
        g.in_degree(n)
    }
}

/// `v` is the smallest degree among the live nodes below `bound`.
pub open spec fn is_min_degree_below(g: GraphView, v: int, outbound: bool, bound: int) -> bool {
    &&& exists|n: u64| n < bound && g.node_alive(n) && #[trigger] degree_of(g, n, outbound) == v
    &&& forall|n: u64| n < bound && g.node_alive(n) ==> #[trigger] degree_of(g, n, outbound) >= v
}

/// `v` is the largest degree among the live nodes below `bound`.
pub open spec fn is_max_degree_below(g: GraphView, v: int, outbound: bool, bound: int) -> bool {
    &&& exists|n: u64| n < bound && g.node_alive(n) && #[trigger] degree_of(g, n, outbound) == v
    &&& forall|n: u64| n < bound && g.node_alive(n) ==> #[trigger] degree_of(g, n, outbound) <= v
}

/// `v` is the smallest degree among the live nodes.
pub open spec fn is_min_degree(g: GraphView, v: int, outbound: bool) -> bool {
    &&& exists|n: u64| g.node_alive(n) && #[trigger] degree_of(g, n, outbound) == v
    &&& forall|n: u64| g.node_alive(n) ==> #[trigger] degree_of(g, n, outbound) >= v
}

/// `v` is the largest degree among the live nodes.
pub open spec fn is_max_degree(g: GraphView, v: int, outbound: bool) -> bool {
    &&& exists|n: u64| g.node_alive(n) && #[trigger] degree_of(g, n, outbound) == v
    &&& forall|n: u64| g.node_alive(n) ==> #[trigger] degree_of(g, n, outbound) <= v
}

/// The graph with live hyperedge `e` killed.
pub open spec fn detached(g: GraphView, e: int) -> GraphView {
    g.with_slot(e, EdgeView { alive: false, ..g.edges[e] })
}

/// Every destination of hyperedge `e` is visited.
pub open spec fn dests_visited(g: GraphView, e: u64, visited: Seq<bool>) -> bool {
    forall|w: u64| #[trigger] g.edges[e as int].destinations.contains(w) ==> w < visited.len() && visited[w as int]
}

/// The indices marked in `visited`.
pub open spec fn marked_set(visited: Seq<bool>) -> Set<int> {
    Set::new(|i: int| 0 <= i < visited.len() && visited[i])
}

proof fn lemma_marked_set_bound(visited: Seq<bool>)
    ensures
        marked_set(visited).finite(),
        marked_set(visited).len() <= visited.len(),
{
    lemma_int_range(0, visited.len() as int);
    assert(marked_set(visited).subset_of(set_int_range(0, visited.len() as int)));
    lemma_len_subset(marked_set(visited), set_int_range(0, visited.len() as int));
}

proof fn lemma_mark(visited: Seq<bool>, x: int)
    requires
        0 <= x < visited.len(),
        !visited[x],
    ensures
        marked_set(visited.update(x, true)) == marked_set(visited).insert(x),
        marked_set(visited.update(x, true)).len() == marked_set(visited).len() + 1,
        marked_set(visited.update(x, true)).len() <= visited.len(),
{
    lemma_marked_set_bound(visited);
    lemma_marked_set_bound(visited.update(x, true));
    assert(marked_set(visited.update(x, true)) =~= marked_set(visited).insert(x));
}

/// A node slot: liveness and the sorted ids of its inbound and outbound hyperedges.
#[derive(Debug)]
pub struct NodeRecord {
    alive: bool,
    in_edges: Vec<u64>,
    out_edges: Vec<u64>,
}

/// A hyperedge slot: liveness and its sorted raw endpoints.
#[derive(Debug)]
pub struct EdgeRecord {
    alive: bool,
    sources: Vec<u64>,
    destinations: Vec<u64>,
}

/// Deterministic directed hypergraph implementation.
#[derive(Debug)]
pub struct HypergraphImpl {
    config: HypergraphConfig,
    nodes: Vec<NodeRecord>,
    edges: Vec<EdgeRecord>,
}

pub open spec fn dir_set(g: GraphView, n: u64, outbound: bool) -> Set<u64> {
    if outbound {
        g.out_set(n)
    } else {
        g.in_set(n)
    }
}

impl NodeRecord {
    pub closed spec fn dir_list(&self, outbound: bool) -> Seq<u64> {
        if outbound {
            self.out_edges@
        } else {
            self.in_edges@
        }
    }

    /// The record's lists are sorted and hold exactly the node's live
    /// hyperedges in `g`.
    pub closed spec fn matches(&self, g: GraphView, n: u64) -> bool {
        &&& strictly_sorted(self.out_edges@)
        &&& strictly_sorted(self.in_edges@)
        &&& self.out_edges@.to_set() == g.out_set(n)
        &&& self.in_edges@.to_set() == g.in_set(n)
    }
}

impl EdgeRecord {
    pub closed spec fn spec_view(&self) -> EdgeView {
        EdgeView { alive: self.alive, sources: self.sources@, destinations: self.destinations@ }
    }
}

impl View for HypergraphImpl {
    type V = GraphView;

    closed spec fn view(&self) -> GraphView {
        GraphView {
            config: self.config,
            nodes: self.nodes@.map_values(|r: NodeRecord| r.alive),
            edges: self.edges@.map_values(|r: EdgeRecord| r.spec_view()),
        }
    }
}

impl HypergraphImpl {
    /// The graph's internal consistency: its view is well formed, slot counts
    /// stay below `usize::MAX`, and every node's adjacency lists agree with
    /// the hyperedges.
    pub closed spec fn wf(&self) -> bool {
        &&& self.nodes@.len() < usize::MAX
        &&& self.edges@.len() < usize::MAX
        &&& self@.well_formed()
        &&& forall|n: u64| n < self.nodes@.len() ==> #[trigger] self.nodes@[n as int].matches(self@, n)
    }

    /// Creates an empty hypergraph with the provided configuration.
    pub fn new(config: HypergraphConfig) -> (g: HypergraphImpl)
        ensures
            g.wf(),
            g@ == (GraphView { config, nodes: Seq::empty(), edges: Seq::empty() }),
    {
        let g = HypergraphImpl { config, nodes: Vec::new(), edges: Vec::new() };
        proof {
            assert(g@.nodes =~= Seq::<bool>::empty());
            assert(g@.edges =~= Seq::<EdgeView>::empty());
            assert forall|p: Seq<u64>| #[trigger] g@.is_path(p) && p.len() >= 2 implies p[0] != p.last() by {
                assert(g@.link(p, 0));
            }
        }
        g
    }

    /// Returns the configuration used by this graph.
    pub fn config(&self) -> (c: &HypergraphConfig)
        ensures
            *c == self@.config,
    {
        &self.config
    }

    /// Returns whether the graph enforces causal mode.
    pub fn is_causal_mode(&self) -> (b: bool)
        ensures
            b == self@.config.causal_mode,
    {
        self.config.causal_mode
    }

    /// Returns the configured degree limits.
    pub fn degree_limits(&self) -> (l: DegreeLimits)
        ensures
            l.max_in == self@.config.max_in_degree,
            l.max_out == self@.config.max_out_degree,
    {
        DegreeLimits { max_in: self.config.max_in_degree, max_out: self.config.max_out_degree }
    }

    proof fn lemma_view_facts(&self)
        ensures
            self@.nodes.len() == self.nodes@.len(),
            self@.edges.len() == self.edges@.len(),
            forall|n: int| 0 <= n < self.nodes@.len() ==> #[trigger] self@.nodes[n] == self.nodes@[n].alive,
            forall|e: int| 0 <= e < self.edges@.len() ==> #[trigger] self@.edges[e] == self.edges@[e].spec_view(),
    {
    }

    /// The adjacency lists of node `n` have the lengths of its degrees, which
    /// are below the number of hyperedge slots.
    proof fn lemma_degrees(&self, n: u64)
        requires
            self.wf(),
            n < self.nodes@.len(),
        ensures
            self.nodes@[n as int].out_edges@.len() == self@.out_degree(n),
            self.nodes@[n as int].in_edges@.len() == self@.in_degree(n),
            self@.out_degree(n) <= self.edges@.len(),
            self@.in_degree(n) <= self.edges@.len(),
            self@.out_set(n).finite(),
            self@.in_set(n).finite(),
    {
        let r = self.nodes@[n as int];
        assert(r.matches(self@, n));
        lemma_sorted_len(r.out_edges@);
        lemma_sorted_len(r.in_edges@);
        assert forall|i: int| 0 <= i < r.out_edges@.len() implies r.out_edges@[i] < self.edges@.len() by {
            assert(r.out_edges@.to_set().contains(r.out_edges@[i]));
        }
        assert forall|i: int| 0 <= i < r.in_edges@.len() implies r.in_edges@[i] < self.edges@.len() by {
            assert(r.in_edges@.to_set().contains(r.in_edges@[i]));
        }
        lemma_sorted_bounded_len(r.out_edges@, self.edges@.len() as int);
        lemma_sorted_bounded_len(r.in_edges@, self.edges@.len() as int);
    }

    /// A live node's out-degree and in-degree.
    proof fn lemma_dead_node_isolated(&self, n: u64)
        requires
            self.wf(),
            !self@.node_alive(n),
        ensures
            self@.out_set(n) == Set::<u64>::empty(),
            self@.in_set(n) == Set::<u64>::empty(),
    {
        assert forall|e: u64| !self@.out_set(n).contains(e) by {
            if self@.out_set(n).contains(e) {
                assert(self@.edge_ok(e as int));
                let k = choose|k: int| 0 <= k < self@.edges[e as int].sources.len() && self@.edges[e as int].sources[k] == n;
                assert(self@.node_alive(self@.edges[e as int].sources[k]));
            }
        }
        assert forall|e: u64| !self@.in_set(n).contains(e) by {
            if self@.in_set(n).contains(e) {
                assert(self@.edge_ok(e as int));
                let k = choose|k: int| 0 <= k < self@.edges[e as int].destinations.len() && self@.edges[e as int].destinations[k] == n;
                assert(self@.node_alive(self@.edges[e as int].destinations[k]));
            }
        }
        assert(self@.out_set(n) =~= Set::<u64>::empty());
        assert(self@.in_set(n) =~= Set::<u64>::empty());
    }

    /// Whether `node` names a live node.
    pub(crate) fn node_is_live(&self, node: u64) -> (b: bool)
        requires
            self.wf(),
        ensures
            b == self@.node_alive(node),
    {
        proof {
            self.lemma_view_facts();
        }
        node < self.nodes.len() as u64 && self.nodes[node as usize].alive
    }

    /// Whether `edge` names a live hyperedge.
    fn edge_is_live(&self, edge: u64) -> (b: bool)
        requires
            self.wf(),
        ensures
            b == self@.edge_alive(edge as int),
    {
        proof {
            self.lemma_view_facts();
        }
        edge < self.edges.len() as u64 && self.edges[edge as usize].alive
    }

    /// Returns the inbound degree of the provided node.
    pub fn in_degree(&self, node: NodeId) -> (r: Result<usize, AsmError>)
        requires
            self.wf(),
        ensures
            match r {
                Ok(d) => self@.node_alive(node.raw) && d == self@.in_degree(node.raw),
                Err(e) => !self@.node_alive(node.raw) && e == AsmError::UnknownNode { node: node.raw },
            },
    {
        if !self.node_is_live(node.raw) {
            return Err(AsmError::UnknownNode { node: node.raw });
        }
        proof {
            self.lemma_degrees(node.raw);
        }
        Ok(self.nodes[node.raw as usize].in_edges.len())
    }

    /// Returns the outbound degree of the provided node.
    pub fn out_degree(&self, node: NodeId) -> (r: Result<usize, AsmError>)
        requires
            self.wf(),
        ensures
            match r {
                Ok(d) => self@.node_alive(node.raw) && d == self@.out_degree(node.raw),
                Err(e) => !self@.node_alive(node.raw) && e == AsmError::UnknownNode { node: node.raw },
            },
    {
        if !self.node_is_live(node.raw) {
            return Err(AsmError::UnknownNode { node: node.raw });
        }
        proof {
            self.lemma_degrees(node.raw);
        }
        Ok(self.nodes[node.raw as usize].out_edges.len())
    }

    /// The ids of the live hyperedges leaving the node, in increasing order.
    pub fn outgoing_edges(&self, node: NodeId) -> (r: Result<Vec<EdgeId>, AsmError>)
        requires
            self.wf(),
        ensures
            match r {
                Ok(v) => self@.node_alive(node.raw) && strictly_sorted(edge_raw_ids(v@))
                    && edge_raw_ids(v@).to_set() == self@.out_set(node.raw),
                Err(e) => !self@.node_alive(node.raw) && e == AsmError::UnknownNode { node: node.raw },
            },
    {
        if !self.node_is_live(node.raw) {
            return Err(AsmError::UnknownNode { node: node.raw });
        }
        let list = &self.nodes[node.raw as usize].out_edges;
        proof {
            assert(self.nodes@[node.raw as int].matches(self@, node.raw));
        }
        Ok(to_edge_ids(list))
    }

    /// The ids of the live hyperedges entering the node, in increasing order.
    pub fn incoming_edges(&self, node: NodeId) -> (r: Result<Vec<EdgeId>, AsmError>)
        requires
            self.wf(),
        ensures
            match r {
                Ok(v) => self@.node_alive(node.raw) && strictly_sorted(edge_raw_ids(v@))
                    && edge_raw_ids(v@).to_set() == self@.in_set(node.raw),
                Err(e) => !self@.node_alive(node.raw) && e == AsmError::UnknownNode { node: node.raw },
            },
    {
        if !self.node_is_live(node.raw) {
            return Err(AsmError::UnknownNode { node: node.raw });
        }
        let list = &self.nodes[node.raw as usize].in_edges;
        proof {
            assert(self.nodes@[node.raw as int].matches(self@, node.raw));
        }
        Ok(to_edge_ids(list))
    }

    /// Returns all live hyperedges touching the node, in increasing order.
    pub fn edges_touching(&self, node: NodeId) -> (r: Result<Vec<EdgeId>, AsmError>)
        requires
            self.wf(),
        ensures
            match r {
                Ok(v) => self@.node_alive(node.raw) && strictly_sorted(edge_raw_ids(v@))
                    && edge_raw_ids(v@).to_set() == self@.in_set(node.raw).union(self@.out_set(node.raw)),
                Err(e) => !self@.node_alive(node.raw) && e == AsmError::UnknownNode { node: node.raw },
            },
    {
        if !self.node_is_live(node.raw) {
            return Err(AsmError::UnknownNode { node: node.raw });
        }
        let rec = &self.nodes[node.raw as usize];
        proof {
            assert(rec.matches(self@, node.raw));
        }
        let merged = merge_sorted(&rec.in_edges, &rec.out_edges);
        Ok(to_edge_ids(&merged))
    }

    /// Returns the source nodes of a live hyperedge.
    pub fn src_of(&self, edge: EdgeId) -> (r: Result<Vec<NodeId>, AsmError>)
        requires
            self.wf(),
        ensures
            match r {
                Ok(v) => self@.edge_alive(edge.raw as int) && raw_ids(v@) == self@.edges[edge.raw as int].sources,
                Err(e) => !self@.edge_alive(edge.raw as int) && e == AsmError::UnknownEdge { edge: edge.raw },
            },
    {
        if !self.edge_is_live(edge.raw) {
            return Err(AsmError::UnknownEdge { edge: edge.raw });
        }
        proof {
            self.lemma_view_facts();
        }
        Ok(to_node_ids(&self.edges[edge.raw as usize].sources))
    }

    /// Returns the destination nodes of a live hyperedge.
    pub fn dst_of(&self, edge: EdgeId) -> (r: Result<Vec<NodeId>, AsmError>)
        requires
            self.wf(),
        ensures
            match r {
                Ok(v) => self@.edge_alive(edge.raw as int) && raw_ids(v@) == self@.edges[edge.raw as int].destinations,
                Err(e) => !self@.edge_alive(edge.raw as int) && e == AsmError::UnknownEdge { edge: edge.raw },
            },
    {
        if !self.edge_is_live(edge.raw) {
            return Err(AsmError::UnknownEdge { edge: edge.raw });
        }
        proof {
            self.lemma_view_facts();
        }
        Ok(to_node_ids(&self.edges[edge.raw as usize].destinations))
    }

    /// Returns the endpoints of a live hyperedge.
    pub fn hyperedge(&self, edge: EdgeId) -> (r: Result<HyperedgeEndpoints, AsmError>)
        requires
            self.wf(),
        ensures
            match r {
                Ok(ep) => self@.edge_alive(edge.raw as int)
                    && raw_ids(ep.sources@) == self@.edges[edge.raw as int].sources
                    && raw_ids(ep.destinations@) == self@.edges[edge.raw as int].destinations,
                Err(e) => !self@.edge_alive(edge.raw as int) && e == AsmError::UnknownEdge { edge: edge.raw },
            },
    {
        let sources = self.src_of(edge)?;
        let destinations = self.dst_of(edge)?;
        Ok(HyperedgeEndpoints { sources, destinations })
    }

    /// The ids of all live nodes, in increasing order.
    pub fn nodes(&self) -> (v: Vec<NodeId>)
        requires
            self.wf(),
        ensures
            strictly_sorted(raw_ids(v@)),
            forall|n: u64| raw_ids(v@).contains(n) <==> self@.node_alive(n),
    {
        proof {
            self.lemma_view_facts();
        }
        let mut out: Vec<NodeId> = Vec::new();
        let mut i: usize = 0;
        while i < self.nodes.len()
            invariant
                self.wf(),
                i <= self.nodes@.len(),
                strictly_sorted(raw_ids(out@)),
                forall|k: int| 0 <= k < out@.len() ==> out@[k].raw < i,
                forall|n: u64| raw_ids(out@).contains(n) <==> (n < i && self@.node_alive(n)),
            decreases self.nodes@.len() - i,
        {
            proof {
                self.lemma_view_facts();
            }
            if self.nodes[i].alive {
                let ghost before = raw_ids(out@);
                out.push(NodeId { raw: i as u64 });
                proof {
                    assert(raw_ids(out@) =~= before.push(i as u64));
                    assert forall|n: u64| raw_ids(out@).contains(n) <==> (n < i + 1 && self@.node_alive(n)) by {
                        if n == i {
                            assert(raw_ids(out@)[before.len() as int] == n);
                        }
                        if raw_ids(out@).contains(n) && n != i {
                            let k = choose|k: int| 0 <= k < raw_ids(out@).len() && raw_ids(out@)[k] == n;
                            assert(k < before.len());
                            assert(before.contains(n));
                        }
                        if n < i && self@.node_alive(n) {
                            assert(before.contains(n));
                            let k = choose|k: int| 0 <= k < before.len() && before[k] == n;
                            assert(raw_ids(out@)[k] == n);
                        }
                    }
                }
            } else {
                proof {
                    assert forall|n: u64| raw_ids(out@).contains(n) <==> (n < i + 1 && self@.node_alive(n)) by {
                        if raw_ids(out@).contains(n) {
                            let k = choose|k: int| 0 <= k < raw_ids(out@).len() && raw_ids(out@)[k] == n;
                            assert(out@[k].raw < i);
                        }
                    }
                }
            }
            i = i + 1;
        }
        out
    }

    /// The ids of all live hyperedges, in increasing order.
    pub fn edges(&self) -> (v: Vec<EdgeId>)
        requires
            self.wf(),
        ensures
            strictly_sorted(edge_raw_ids(v@)),
            forall|e: u64| edge_raw_ids(v@).contains(e) <==> self@.edge_alive(e as int),
    {
        proof {
            self.lemma_view_facts();
        }
        let mut out: Vec<EdgeId> = Vec::new();
        let mut i: usize = 0;
        while i < self.edges.len()
            invariant
                self.wf(),
                i <= self.edges@.len(),
                strictly_sorted(edge_raw_ids(out@)),
                forall|k: int| 0 <= k < out@.len() ==> out@[k].raw < i,
                forall|e: u64| edge_raw_ids(out@).contains(e) <==> (e < i && self@.edge_alive(e as int)),
            decreases self.edges@.len() - i,
        {
            proof {
                self.lemma_view_facts();
            }
            if self.edges[i].alive {
                let ghost before = edge_raw_ids(out@);
                out.push(EdgeId { raw: i as u64 });
                proof {
                    assert(edge_raw_ids(out@) =~= before.push(i as u64));
                    assert forall|e: u64| edge_raw_ids(out@).contains(e) <==> (e < i + 1 && self@.edge_alive(e as int)) by {
                        if e == i {
                            assert(edge_raw_ids(out@)[before.len() as int] == e);
                        }
                        if edge_raw_ids(out@).contains(e) && e != i {
                            let k = choose|k: int| 0 <= k < edge_raw_ids(out@).len() && edge_raw_ids(out@)[k] == e;
                            assert(k < before.len());
                            assert(before.contains(e));
                        }
                        if e < i && self@.edge_alive(e as int) {
                            assert(before.contains(e));
                            let k = choose|k: int| 0 <= k < before.len() && before[k] == e;
                            assert(edge_raw_ids(out@)[k] == e);
                        }
                    }
                }
            } else {
                proof {
                    assert forall|e: u64| edge_raw_ids(out@).contains(e) <==> (e < i + 1 && self@.edge_alive(e as int)) by {
                        if edge_raw_ids(out@).contains(e) {
                            let k = choose|k: int| 0 <= k < edge_raw_ids(out@).len() && edge_raw_ids(out@)[k] == e;
                            assert(out@[k].raw < i);
                        }
                    }
                }
            }
            i = i + 1;
        }
        out
    }

    /// Removes an isolated live node.
    pub fn remove_node(&mut self, node: NodeId) -> (r: Result<(), AsmError>)
        requires
            old(self).wf(),
        ensures
            final(self).wf(),
            !old(self)@.node_alive(node.raw) ==> r == Err::<(), AsmError>(
                AsmError::UnknownNode { node: node.raw },
            ),
            old(self)@.node_alive(node.raw) && (old(self)@.in_degree(node.raw) > 0 || old(self)@.out_degree(node.raw) > 0)
                ==> r == Err::<(), AsmError>(
                AsmError::NodeNotIsolated {
                    node: node.raw,
                    in_edges: old(self)@.in_degree(node.raw) as usize,
                    out_edges: old(self)@.out_degree(node.raw) as usize,
                },
            ),
            r is Ok <==> (old(self)@.node_alive(node.raw) && old(self)@.in_degree(node.raw) == 0
                && old(self)@.out_degree(node.raw) == 0),
            r is Ok ==> final(self)@ == (GraphView {
                config: old(self)@.config,
                nodes: old(self)@.nodes.update(node.raw as int, false),
                edges: old(self)@.edges,
            }),
            r is Err ==> final(self)@ == old(self)@,
    {
        if !self.node_is_live(node.raw) {
            return Err(AsmError::UnknownNode { node: node.raw });
        }
        let idx = node.raw as usize;
        proof {
            self.lemma_degrees(node.raw);
        }
        let in_len = self.nodes[idx].in_edges.len();
        let out_len = self.nodes[idx].out_edges.len();
        if in_len > 0 || out_len > 0 {
            return Err(AsmError::NodeNotIsolated { node: node.raw, in_edges: in_len, out_edges: out_len });
        }
        let ghost g0 = self@;
        proof {
            assert(self.nodes@[idx as int].matches(g0, node.raw));
            assert(g0.out_set(node.raw) =~= Set::<u64>::empty()) by {
                assert(self.nodes@[idx as int].out_edges@ =~= Seq::<u64>::empty());
            }
            assert(g0.in_set(node.raw) =~= Set::<u64>::empty()) by {
                assert(self.nodes@[idx as int].in_edges@ =~= Seq::<u64>::empty());
            }
        }
        self.nodes[idx].alive = false;
        proof {
            let g1 = self@;
            assert(g1.nodes =~= g0.nodes.update(idx as int, false));
            assert(g1.edges =~= g0.edges);
            lemma_same_edges(g0, g1);
            assert forall|n: u64| n < self.nodes@.len() implies #[trigger] self.nodes@[n as int].matches(self@, n) by {
                assert(old(self).nodes@[n as int].matches(g0, n));
            }
            assert forall|e: int| #[trigger] g1.edge_alive(e) implies g1.edge_ok(e) by {
                assert(g0.edge_alive(e));
                assert(g0.edge_ok(e));
                let edge = g1.edges[e];
                assert forall|k: int| 0 <= k < edge.sources.len() implies g1.node_alive(#[trigger] edge.sources[k]) by {
                    assert(g0.node_alive(edge.sources[k]));
                    if edge.sources[k] == node.raw {
                        assert(g0.out_set(node.raw).contains(e as u64));
                    }
                }
                assert forall|k: int| 0 <= k < edge.destinations.len() implies g1.node_alive(#[trigger] edge.destinations[k]) by {
                    assert(g0.node_alive(edge.destinations[k]));
                    if edge.destinations[k] == node.raw {
                        assert(g0.in_set(node.raw).contains(e as u64));
                    }
                }
            }
            assert forall|n: u64| g1.node_alive(n) && g1.config.max_out_degree is Some implies #[trigger] g1.out_set(n).len()
                <= g1.config.max_out_degree->0 by {
                assert(g0.node_alive(n));
                assert(g0.out_set(n).len() <= g0.config.max_out_degree->0);
            }
            assert forall|n: u64| g1.node_alive(n) && g1.config.max_in_degree is Some implies #[trigger] g1.in_set(n).len()
                <= g1.config.max_in_degree->0 by {
                assert(g0.node_alive(n));
                assert(g0.in_set(n).len() <= g0.config.max_in_degree->0);
            }
        }
        Ok(())
    }

    /// Every adjacency set of a consistent graph is finite.
    proof fn lemma_sets_finite(&self)
        requires
            self.wf(),
        ensures
            sets_finite(self@),
    {
        assert forall|n: u64| #[trigger] self@.out_set(n).finite() by {
            if n < self.nodes@.len() {
                self.lemma_degrees(n);
            } else {
                self.lemma_dead_node_isolated(n);
            }
        }
        assert forall|n: u64| #[trigger] self@.in_set(n).finite() by {
            if n < self.nodes@.len() {
                self.lemma_degrees(n);
            } else {
                self.lemma_dead_node_isolated(n);
            }
        }
    }

    /// Inserts (or removes) `slot` in the outbound (or inbound) list of every
    /// node of `list`, moving those lists from the sets of `before` to the
    /// sets of `after`.
    fn adjust_lists(
        &mut self,
        slot: u64,
        list: &Vec<u64>,
        outbound: bool,
        insert: bool,
        Ghost(before): Ghost<GraphView>,
        Ghost(after): Ghost<GraphView>,
    )
        requires
            strictly_sorted(list@),
            forall|k: int| 0 <= k < list@.len() ==> #[trigger] list@[k] < old(self).nodes@.len(),
            forall|n: u64| n < old(self).nodes@.len() ==> strictly_sorted(#[trigger] old(self).nodes@[n as int].dir_list(outbound))
                && old(self).nodes@[n as int].dir_list(outbound).to_set() == dir_set(before, n, outbound),
            forall|n: u64| #[trigger] dir_set(after, n, outbound) == (if list@.contains(n) {
                if insert {
                    dir_set(before, n, outbound).insert(slot)
                } else {
                    dir_set(before, n, outbound).remove(slot)
                }
            } else {
                dir_set(before, n, outbound)
            }),
        ensures
            final(self).nodes@.len() == old(self).nodes@.len(),
            final(self).edges@ == old(self).edges@,
            final(self).config == old(self).config,
            forall|n: int| 0 <= n < final(self).nodes@.len() ==> (#[trigger] final(self).nodes@[n]).alive
                == old(self).nodes@[n].alive && final(self).nodes@[n].dir_list(!outbound) == old(self).nodes@[n].dir_list(!outbound),
            forall|n: u64| n < final(self).nodes@.len() ==> strictly_sorted(#[trigger] final(self).nodes@[n as int].dir_list(outbound))
                && final(self).nodes@[n as int].dir_list(outbound).to_set() == dir_set(after, n, outbound),
    {
        let mut i: usize = 0;
        while i < list.len()
            invariant
                i <= list@.len(),
                strictly_sorted(list@),
                forall|k: int| 0 <= k < list@.len() ==> #[trigger] list@[k] < old(self).nodes@.len(),
                self.nodes@.len() == old(self).nodes@.len(),
                self.edges@ == old(self).edges@,
                self.config == old(self).config,
                forall|n: int| 0 <= n < self.nodes@.len() ==> (#[trigger] self.nodes@[n]).alive
                    == old(self).nodes@[n].alive && self.nodes@[n].dir_list(!outbound) == old(self).nodes@[n].dir_list(!outbound),
                forall|n: u64| n < self.nodes@.len() ==> strictly_sorted(#[trigger] self.nodes@[n as int].dir_list(outbound))
                    && self.nodes@[n as int].dir_list(outbound).to_set() == (if list@.take(i as int).contains(n) {
                        dir_set(after, n, outbound)
                    } else {
                        dir_set(before, n, outbound)
                    }),
                forall|n: u64| #[trigger] dir_set(after, n, outbound) == (if list@.contains(n) {
                    if insert {
                        dir_set(before, n, outbound).insert(slot)
                    } else {
                        dir_set(before, n, outbound).remove(slot)
                    }
                } else {
                    dir_set(before, n, outbound)
                }),
            decreases list@.len() - i,
        {
            let n = list[i];
            proof {
                assert(list@[i as int] < old(self).nodes@.len());
                assert(n < self.nodes.len());
            }
            let idx = n as usize;
            let ghost prev = self.nodes@;
            proof {
                assert(idx as int == n as int);
                assert(!list@.take(i as int).contains(n)) by {
                    if list@.take(i as int).contains(n) {
                        let k = choose|k: int| 0 <= k < i && list@[k] == n;
                        assert(list@[k] < list@[i as int]);
                    }
                }
                assert(strictly_sorted(prev[idx as int].dir_list(outbound)));
            }
            let mut rec = NodeRecord { alive: false, in_edges: Vec::new(), out_edges: Vec::new() };
            self.nodes.set_and_swap(idx, &mut rec);
            if outbound {
                if insert {
                    insert_sorted(&mut rec.out_edges, slot);
                } else {
                    remove_sorted(&mut rec.out_edges, slot);
                }
            } else {
                if insert {
                    insert_sorted(&mut rec.in_edges, slot);
                } else {
                    remove_sorted(&mut rec.in_edges, slot);
                }
            }
            self.nodes.set(idx, rec);
            proof {
                assert(list@.take(i + 1) =~= list@.take(i as int).push(n));
                assert forall|m: u64| m < self.nodes@.len() implies strictly_sorted(#[trigger] self.nodes@[m as int].dir_list(outbound))
                    && self.nodes@[m as int].dir_list(outbound).to_set() == (if list@.take(i + 1).contains(m) {
                        dir_set(after, m, outbound)
                    } else {
                        dir_set(before, m, outbound)
                    }) by {
                    if m != n {
                        assert(self.nodes@[m as int] == prev[m as int]);
                        assert(list@.take(i + 1).contains(m) == list@.take(i as int).contains(m));
                    } else {
                        assert(list@[i as int] == n);
                        assert(list@.contains(n));
                        assert(list@.take(i + 1)[i as int] == n);
                        assert(list@.take(i + 1).contains(n));
                    }
                }
                assert forall|m: int| 0 <= m < self.nodes@.len() implies (#[trigger] self.nodes@[m]).alive
                    == old(self).nodes@[m].alive && self.nodes@[m].dir_list(!outbound) == old(self).nodes@[m].dir_list(!outbound) by {
                    if m != idx {
                        assert(self.nodes@[m] == prev[m]);
                    }
                }
            }
            i = i + 1;
        }
        proof {
            assert(list@.take(list@.len() as int) =~= list@);
        }
    }

    /// Kills live hyperedge `e`, unlinking it from its endpoints.
    fn deactivate_slot(&mut self, e: usize)
        requires
            old(self).wf(),
            old(self)@.edge_alive(e as int),
        ensures
            final(self).wf(),
            final(self)@ == old(self)@.with_slot(e as int, EdgeView { alive: false, ..old(self)@.edges[e as int] }),
    {
        let ghost g0 = self@;
        proof {
            self.lemma_view_facts();
            self.lemma_sets_finite();
            lemma_detach_well_formed(g0, e as u64);
            assert(g0.edge_ok(e as int));
        }
        let srcs = copy_raw(&self.edges[e].sources);
        let dsts = copy_raw(&self.edges[e].destinations);
        self.edges[e].alive = false;
        let ghost g1 = self@;
        proof {
            let new = EdgeView { alive: false, ..g0.edges[e as int] };
            assert(g1.edges =~= g0.edges.update(e as int, new));
            assert(g1.nodes =~= g0.nodes);
            assert(g1 == g0.with_slot(e as int, new));
            lemma_slot_sets(g0, e as u64, new);
            assert forall|k: int| 0 <= k < srcs@.len() implies #[trigger] srcs@[k] < self.nodes@.len() by {
                assert(g0.node_alive(srcs@[k]));
            }
            assert forall|k: int| 0 <= k < dsts@.len() implies #[trigger] dsts@[k] < self.nodes@.len() by {
                assert(g0.node_alive(dsts@[k]));
            }
            assert forall|n: u64| n < self.nodes@.len() implies strictly_sorted(#[trigger] self.nodes@[n as int].dir_list(true))
                && self.nodes@[n as int].dir_list(true).to_set() == dir_set(g0, n, true) by {
                assert(old(self).nodes@[n as int].matches(g0, n));
            }
            assert forall|n: u64| #[trigger] dir_set(g1, n, true) == (if srcs@.contains(n) {
                dir_set(g0, n, true).remove(e as u64)
            } else {
                dir_set(g0, n, true)
            }) by {
                if !srcs@.contains(n) {
                    assert(!g0.out_set(n).contains(e as u64));
                    assert(g0.out_set(n).remove(e as u64) =~= g0.out_set(n));
                }
            }
        }
        self.adjust_lists(e as u64, &srcs, true, false, Ghost(g0), Ghost(g1));
        proof {
            assert(self@ == g1) by {
                assert(self@.nodes =~= g1.nodes);
                assert(self@.edges =~= g1.edges);
            }
            assert forall|n: u64| n < self.nodes@.len() implies strictly_sorted(#[trigger] self.nodes@[n as int].dir_list(false))
                && self.nodes@[n as int].dir_list(false).to_set() == dir_set(g0, n, false) by {
                assert(old(self).nodes@[n as int].matches(g0, n));
            }
            assert forall|n: u64| #[trigger] dir_set(g1, n, false) == (if dsts@.contains(n) {
                dir_set(g0, n, false).remove(e as u64)
            } else {
                dir_set(g0, n, false)
            }) by {
                if !dsts@.contains(n) {
                    assert(!g0.in_set(n).contains(e as u64));
                    assert(g0.in_set(n).remove(e as u64) =~= g0.in_set(n));
                }
            }
        }
        let ghost mid = self.nodes@;
        self.adjust_lists(e as u64, &dsts, false, false, Ghost(g0), Ghost(g1));
        proof {
            assert(self@ == g1) by {
                assert(self@.nodes =~= g1.nodes);
                assert(self@.edges =~= g1.edges);
            }
            assert forall|n: u64| n < self.nodes@.len() implies #[trigger] self.nodes@[n as int].matches(self@, n) by {
                assert(self.nodes@[n as int].dir_list(true) == mid[n as int].dir_list(true));
                assert(strictly_sorted(mid[n as int].dir_list(true)));
                assert(self.nodes@[n as int].dir_list(false).to_set() == dir_set(g1, n, false));
            }
        }
    }

    /// Fills dead slot `e` with a live hyperedge from `s` to `d`, linking it
    /// to its endpoints, given that the result is well formed.
    fn fill_slot(&mut self, e: usize, s: Vec<u64>, d: Vec<u64>)
        requires
            old(self).wf(),
            e < old(self)@.edges.len(),
            !old(self)@.edges[e as int].alive,
            old(self)@.with_slot(e as int, EdgeView { alive: true, sources: s@, destinations: d@ }).well_formed(),
            old(self)@.with_slot(e as int, EdgeView { alive: true, sources: s@, destinations: d@ }).edge_ok(e as int),
        ensures
            final(self).wf(),
            final(self)@ == old(self)@.with_slot(e as int, EdgeView { alive: true, sources: s@, destinations: d@ }),
    {
        let ghost g0 = self@;
        let ghost new = EdgeView { alive: true, sources: s@, destinations: d@ };
        proof {
            self.lemma_view_facts();
        }
        let srcs = copy_raw(&s);
        let dsts = copy_raw(&d);
        self.edges.set(e, EdgeRecord { alive: true, sources: s, destinations: d });
        let ghost g1 = self@;
        proof {
            assert(g1.edges =~= g0.edges.update(e as int, new));
            assert(g1.nodes =~= g0.nodes);
            assert(g1 == g0.with_slot(e as int, new));
            lemma_slot_sets(g0, e as u64, new);
            assert(g1.edge_ok(e as int));
            assert forall|k: int| 0 <= k < srcs@.len() implies #[trigger] srcs@[k] < self.nodes@.len() by {
                assert(g1.node_alive(srcs@[k]));
            }
            assert forall|k: int| 0 <= k < dsts@.len() implies #[trigger] dsts@[k] < self.nodes@.len() by {
                assert(g1.node_alive(dsts@[k]));
            }
            assert forall|n: u64| n < self.nodes@.len() implies strictly_sorted(#[trigger] self.nodes@[n as int].dir_list(true))
                && self.nodes@[n as int].dir_list(true).to_set() == dir_set(g0, n, true) by {
                assert(old(self).nodes@[n as int].matches(g0, n));
            }
            assert forall|n: u64| #[trigger] dir_set(g1, n, true) == (if srcs@.contains(n) {
                dir_set(g0, n, true).insert(e as u64)
            } else {
                dir_set(g0, n, true)
            }) by {
                assert(!g0.out_set(n).contains(e as u64));
                assert(g0.out_set(n).remove(e as u64) =~= g0.out_set(n));
            }
        }
        self.adjust_lists(e as u64, &srcs, true, true, Ghost(g0), Ghost(g1));
        proof {
            assert(self@ == g1) by {
                assert(self@.nodes =~= g1.nodes);
                assert(self@.edges =~= g1.edges);
            }
            assert forall|n: u64| n < self.nodes@.len() implies strictly_sorted(#[trigger] self.nodes@[n as int].dir_list(false))
                && self.nodes@[n as int].dir_list(false).to_set() == dir_set(g0, n, false) by {
                assert(old(self).nodes@[n as int].matches(g0, n));
            }
            assert forall|n: u64| #[trigger] dir_set(g1, n, false) == (if dsts@.contains(n) {
                dir_set(g0, n, false).insert(e as u64)
            } else {
                dir_set(g0, n, false)
            }) by {
                assert(!g0.in_set(n).contains(e as u64));
                assert(g0.in_set(n).remove(e as u64) =~= g0.in_set(n));
            }
        }
        let ghost mid = self.nodes@;
        self.adjust_lists(e as u64, &dsts, false, true, Ghost(g0), Ghost(g1));
        proof {
            assert(self@ == g1) by {
                assert(self@.nodes =~= g1.nodes);
                assert(self@.edges =~= g1.edges);
            }
            assert forall|n: u64| n < self.nodes@.len() implies #[trigger] self.nodes@[n as int].matches(self@, n) by {
                assert(self.nodes@[n as int].dir_list(true) == mid[n as int].dir_list(true));
                assert(strictly_sorted(mid[n as int].dir_list(true)));
                assert(self.nodes@[n as int].dir_list(false).to_set() == dir_set(g1, n, false));
            }
        }
    }

    /// Replaces the endpoints of live slot `e` by ones known to keep the graph well formed.
    pub(crate) fn replace_slot(&mut self, e: usize, s: Vec<u64>, d: Vec<u64>)
        requires
            old(self).wf(),
            old(self)@.edge_alive(e as int),
            old(self)@.with_slot(e as int, EdgeView { alive: true, sources: s@, destinations: d@ }).well_formed(),
        ensures
            final(self).wf(),
            final(self)@ == old(self)@.with_slot(e as int, EdgeView { alive: true, sources: s@, destinations: d@ }),
    {
        let ghost g0 = self@;
        let ghost new = EdgeView { alive: true, sources: s@, destinations: d@ };
        self.deactivate_slot(e);
        proof {
            assert(self@.with_slot(e as int, new).edges =~= g0.with_slot(e as int, new).edges);
            assert(self@.with_slot(e as int, new) == g0.with_slot(e as int, new));
            assert(g0.with_slot(e as int, new).edge_alive(e as int));
        }
        self.fill_slot(e, s, d);
        proof {
            assert(self@.edges =~= g0.with_slot(e as int, new).edges);
        }
    }

    fn cap_violation(&self, list: &Vec<u64>, cap: usize, outbound: bool) -> (r: Option<AsmError>)
        requires
            self.wf(),
        ensures
            r == self@.first_cap_violation(list@, cap, outbound, 0),
    {
        let mut i: usize = 0;
        while i < list.len()
            invariant
                self.wf(),
                i <= list@.len(),
                self@.first_cap_violation(list@, cap, outbound, 0) == self@.first_cap_violation(list@, cap, outbound, i as int),
            decreases list@.len() - i,
        {
            let n = list[i];
            if !self.node_is_live(n) {
                return Some(AsmError::UnknownNode { node: n });
            }
            proof {
                self.lemma_degrees(n);
            }
            let d = if outbound {
                self.nodes[n as usize].out_edges.len()
            } else {
                self.nodes[n as usize].in_edges.len()
            };
            if d >= cap {
                if outbound {
                    return Some(AsmError::OutDegreeCap { node: n, cap, attempted: d + 1 });
                } else {
                    return Some(AsmError::InDegreeCap { node: n, cap, attempted: d + 1 });
                }
            }
            i = i + 1;
        }
        None
    }

    /// The first node of `list` that is not live, as in the model.
    fn unknown_node(&self, list: &Vec<u64>) -> (r: Option<AsmError>)
        requires
            self.wf(),
        ensures
            r == self@.first_unknown(list@, 0),
    {
        let mut i: usize = 0;
        while i < list.len()
            invariant
                self.wf(),
                i <= list@.len(),
                self@.first_unknown(list@, 0) == self@.first_unknown(list@, i as int),
            decreases list@.len() - i,
        {
            if !self.node_is_live(list[i]) {
                return Some(AsmError::UnknownNode { node: list[i] });
            }
            i = i + 1;
        }
        None
    }

    /// Whether a live hyperedge has exactly these endpoints.
    fn signature_exists(&self, s: &Vec<u64>, d: &Vec<u64>) -> (b: bool)
        requires
            self.wf(),
        ensures
            b == self@.has_signature(s@, d@),
    {
        proof {
            self.lemma_view_facts();
        }
        let mut k: usize = 0;
        while k < self.edges.len()
            invariant
                self.wf(),
                k <= self.edges@.len(),
                forall|j: int| 0 <= j < k ==> self@.edges[j] != (EdgeView { alive: true, sources: s@, destinations: d@ }),
            decreases self.edges@.len() - k,
        {
            proof {
                self.lemma_view_facts();
            }
            if self.edges[k].alive && vec_eq_raw(&self.edges[k].sources, s) && vec_eq_raw(
                &self.edges[k].destinations,
                d,
            ) {
                proof {
                    assert(self@.edges[k as int] == (EdgeView { alive: true, sources: s@, destinations: d@ }));
                }
                return true;
            }
            k = k + 1;
        }
        false
    }

    /// Whether some node of `targets` can be reached from some node of `from`,
    /// found by a depth-first search along the outbound adjacency lists.
    fn reaches_any(&self, from: &Vec<u64>, targets: &Vec<u64>) -> (b: bool)
        requires
            self.wf(),
        ensures
            b == exists|a: u64| #[trigger] targets@.contains(a) && reached_from(self@, from@, a),
    {
        proof {
            self.lemma_view_facts();
        }
        let n = self.nodes.len();
        let ghost g = self@;
        let mut visited: Vec<bool> = Vec::new();
        let mut i: usize = 0;
        while i < n
            invariant
                i <= n,
                n == self.nodes@.len(),
                visited@.len() == i,
                forall|k: int| 0 <= k < i ==> !visited@[k],
            decreases n - i,
        {
            visited.push(false);
            i = i + 1;
        }
        proof {
            assert(marked_set(visited@) =~= Set::<int>::empty());
        }
        let mut work: Vec<u64> = Vec::new();
        let ghost mut done: Set<u64> = Set::empty();
        let mut marked: usize = 0;
        let mut i: usize = 0;
        while i < from.len()
            invariant
                self.wf(),
                g == self@,
                n == self.nodes@.len(),
                visited@.len() == n,
                i <= from@.len(),
                marked == marked_set(visited@).len(),
                marked <= n,
                done == Set::<u64>::empty(),
                forall|v: u64| v < n && #[trigger] visited@[v as int] ==> reached_from(g, from@, v),
                forall|k: int| 0 <= k < i ==> (from@[k] < n ==> visited@[from@[k] as int]),
                forall|k: int| 0 <= k < work@.len() ==> #[trigger] work@[k] < n && visited@[work@[k] as int],
                forall|v: u64| v < n && #[trigger] visited@[v as int] ==> work@.contains(v) || done.contains(v),
            decreases from@.len() - i,
        {
            let x = from[i];
            if x < n as u64 && !visited[x as usize] {
                proof {
                    lemma_mark(visited@, x as int);
                    lemma_reaches_refl(g, x);
                    assert(from@.contains(x));
                }
                let ghost old_work = work@;
                visited.set(x as usize, true);
                work.push(x);
                marked = marked + 1;
                proof {
                    assert(work@[work@.len() - 1] == x);
                    assert forall|v: u64| v < n && #[trigger] visited@[v as int] implies work@.contains(v) || done.contains(v) by {
                        if v != x {
                            if old_work.contains(v) {
                                let k = choose|k: int| 0 <= k < old_work.len() && old_work[k] == v;
                                assert(work@[k] == v);
                            }
                        }
                    }
                }
            }
            i = i + 1;
        }
        while work.len() > 0
            invariant
                self.wf(),
                g == self@,
                n == self.nodes@.len(),
                visited@.len() == n,
                marked == marked_set(visited@).len(),
                marked <= n,
                forall|v: u64| v < n && #[trigger] visited@[v as int] ==> reached_from(g, from@, v),
                forall|k: int| 0 <= k < from@.len() ==> (from@[k] < n ==> visited@[from@[k] as int]),
                forall|k: int| 0 <= k < work@.len() ==> #[trigger] work@[k] < n && visited@[work@[k] as int],
                forall|v: u64| v < n && #[trigger] visited@[v as int] ==> work@.contains(v) || done.contains(v),
                forall|v: u64| #[trigger] done.contains(v) ==> v < n && visited@[v as int] && closed_at(g, visited@, v),
            decreases n - marked, work@.len(),
        {
            let ghost w0 = work@.len();
            let ghost m0 = marked;
            let ghost before_pop = work@;
            let v = work.pop().unwrap();
            proof {
                assert(v == before_pop[before_pop.len() - 1]);
                assert(v < n && visited@[v as int]);
                assert forall|v2: u64| v2 < n && #[trigger] visited@[v2 as int] implies v2 == v || work@.contains(v2) || done.contains(v2) by {
                    if before_pop.contains(v2) && !done.contains(v2) {
                        let k = choose|k: int| 0 <= k < before_pop.len() && before_pop[k] == v2;
                        if k < before_pop.len() - 1 {
                            assert(work@[k] == v2);
                        }
                    }
                }
                self.lemma_degrees(v);
                assert(self.nodes@[v as int].matches(g, v));
            }
            let outs = &self.nodes[v as usize].out_edges;
            let mut j: usize = 0;
            while j < outs.len()
                invariant
                    self.wf(),
                    g == self@,
                    n == self.nodes@.len(),
                    outs@ == self.nodes@[v as int].out_edges@,
                    outs@.to_set() == g.out_set(v),
                    v < n,
                    j <= outs@.len(),
                    visited@.len() == n,
                    marked == marked_set(visited@).len(),
                    marked <= n,
                    m0 <= marked,
                    work@.len() + 1 == w0 + (marked - m0),
                    visited@[v as int],
                    forall|v2: u64| v2 < n && #[trigger] visited@[v2 as int] ==> reached_from(g, from@, v2),
                    forall|k: int| 0 <= k < from@.len() ==> (from@[k] < n ==> visited@[from@[k] as int]),
                    forall|k: int| 0 <= k < work@.len() ==> #[trigger] work@[k] < n && visited@[work@[k] as int],
                    forall|v2: u64| v2 < n && #[trigger] visited@[v2 as int] ==> v2 == v || work@.contains(v2) || done.contains(v2),
                    forall|v2: u64| #[trigger] done.contains(v2) ==> v2 < n && visited@[v2 as int] && closed_at(g, visited@, v2),
                    forall|jj: int| 0 <= jj < j ==> dests_visited(g, #[trigger] outs@[jj], visited@),
                decreases outs@.len() - j,
            {
                let e = outs[j];
                proof {
                    assert(outs@.to_set().contains(e));
                    assert(g.edge_alive(e as int));
                    assert(g.edge_ok(e as int));
                }
                let dests = &self.edges[e as usize].destinations;
                proof {
                    assert(dests@ == g.edges[e as int].destinations);
                }
                let mut k: usize = 0;
                while k < dests.len()
                    invariant
                        self.wf(),
                        g == self@,
                        n == self.nodes@.len(),
                        dests@ == g.edges[e as int].destinations,
                        g.edge_alive(e as int),
                        g.edge_ok(e as int),
                        g.edges[e as int].sources.contains(v),
                        v < n,
                        k <= dests@.len(),
                        visited@.len() == n,
                        marked == marked_set(visited@).len(),
                        marked <= n,
                        m0 <= marked,
                        work@.len() + 1 == w0 + (marked - m0),
                        visited@[v as int],
                        forall|v2: u64| v2 < n && #[trigger] visited@[v2 as int] ==> reached_from(g, from@, v2),
                        forall|kk: int| 0 <= kk < from@.len() ==> (from@[kk] < n ==> visited@[from@[kk] as int]),
                        forall|kk: int| 0 <= kk < work@.len() ==> #[trigger] work@[kk] < n && visited@[work@[kk] as int],
                        forall|v2: u64| v2 < n && #[trigger] visited@[v2 as int] ==> v2 == v || work@.contains(v2) || done.contains(v2),
                        forall|v2: u64| #[trigger] done.contains(v2) ==> v2 < n && visited@[v2 as int] && closed_at(g, visited@, v2),
                        forall|kk: int| 0 <= kk < k ==> #[trigger] dests@[kk] < n && visited@[dests@[kk] as int],
                        outs@ == self.nodes@[v as int].out_edges@,
                        j < outs@.len(),
                        outs@[j as int] == e,
                        forall|jj: int| 0 <= jj < j ==> dests_visited(g, #[trigger] outs@[jj], visited@),
                    decreases dests@.len() - k,
                {
                    let w = dests[k];
                    proof {
                        assert(g.node_alive(dests@[k as int]));
                    }
                    if !visited[w as usize] {
                        proof {
                            lemma_mark(visited@, w as int);
                            assert(g.edges[e as int].destinations[k as int] == w);
                            assert(g.edges[e as int].destinations.contains(w));
                            assert(g.edges[e as int].sources.contains(v));
                            assert(g.step(v, w));
                            let x = choose|x: u64| #[trigger] from@.contains(x) && g.reaches(x, v);
                            lemma_reaches_step(g, x, v, w);
                        }
                        let ghost old_work = work@;
                        let ghost old_vis = visited@;
                        visited.set(w as usize, true);
                        work.push(w);
                        marked = marked + 1;
                        proof {
                            assert(work@[work@.len() - 1] == w);
                            assert forall|v2: u64| v2 < n && #[trigger] visited@[v2 as int] implies v2 == v || work@.contains(v2) || done.contains(v2) by {
                                if v2 != w {
                                    assert(old_vis[v2 as int]);
                                    if old_work.contains(v2) {
                                        let kk = choose|kk: int| 0 <= kk < old_work.len() && old_work[kk] == v2;
                                        assert(work@[kk] == v2);
                                    }
                                }
                            }
                            assert forall|jj: int| 0 <= jj < j implies dests_visited(g, #[trigger] outs@[jj], visited@) by {
                                assert(dests_visited(g, outs@[jj], old_vis));
                                assert forall|w2: u64| #[trigger] g.edges[outs@[jj] as int].destinations.contains(w2)
                                    implies w2 < visited@.len() && visited@[w2 as int] by {
                                    assert(old_vis[w2 as int]);
                                }
                            }
                            assert forall|v2: u64| #[trigger] done.contains(v2) implies v2 < n && visited@[v2 as int] && closed_at(g, visited@, v2) by {
                                assert(closed_at(g, old_vis, v2));
                                assert forall|w2: u64| #[trigger] g.step(v2, w2) implies w2 < visited@.len() && visited@[w2 as int] by {
                                    assert(old_vis[w2 as int]);
                                }
                            }
                        }
                    }
                    k = k + 1;
                }
                proof {
                    assert forall|jj: int| 0 <= jj < j + 1 implies dests_visited(g, #[trigger] outs@[jj], visited@) by {
                        if jj == j {
                            assert forall|w: u64| #[trigger] g.edges[outs@[jj] as int].destinations.contains(w)
                                implies w < visited@.len() && visited@[w as int] by {
                                assert(dests@.contains(w));
                                let kk = choose|kk: int| 0 <= kk < dests@.len() && dests@[kk] == w;
                                assert(dests@[kk] < n && visited@[dests@[kk] as int]);
                            }
                        }
                    }
                }
                j = j + 1;
            }
            proof {
                assert(closed_at(g, visited@, v)) by {
                    assert forall|w: u64| #[trigger] g.step(v, w) implies w < visited@.len() && visited@[w as int] by {
                        let e = choose|e: int|
                            #![trigger g.edges[e].sources.contains(v), g.edges[e].destinations.contains(w)]
                            g.edge_alive(e) && g.edges[e].sources.contains(v) && g.edges[e].destinations.contains(w);
                        assert(g.out_set(v).contains(e as u64));
                        assert(outs@.to_set().contains(e as u64));
                        let jj = choose|jj: int| 0 <= jj < outs@.len() && outs@[jj] == e as u64;
                        assert(dests_visited(g, outs@[jj], visited@));
                        assert(g.edges[outs@[jj] as int].destinations.contains(w));
                    }
                }
                done = done.insert(v);
                assert forall|v2: u64| v2 < n && #[trigger] visited@[v2 as int] implies work@.contains(v2) || done.contains(v2) by {
                    if v2 == v {
                        assert(done.contains(v));
                    }
                }
            }
        }
        proof {
            assert forall|v: u64| v < n && #[trigger] visited@[v as int] implies closed_at(g, visited@, v) by {
                assert(done.contains(v));
            }
        }
        let mut t: usize = 0;
        while t < targets.len()
            invariant
                self.wf(),
                g == self@,
                n == self.nodes@.len(),
                visited@.len() == n,
                t <= targets@.len(),
                forall|v: u64| v < n && #[trigger] visited@[v as int] ==> reached_from(g, from@, v),
                forall|k: int| 0 <= k < from@.len() ==> (from@[k] < n ==> visited@[from@[k] as int]),
                forall|v: u64| v < n && #[trigger] visited@[v as int] ==> closed_at(g, visited@, v),
                forall|k: int| 0 <= k < t ==> !reached_from(g, from@, #[trigger] targets@[k]),
            decreases targets@.len() - t,
        {
            let a = targets[t];
            if contains_raw(from, a) {
                proof {
                    lemma_reaches_refl(g, a);
                    assert(targets@.contains(a));
                    assert(reached_from(g, from@, a));
                }
                return true;
            }
            if a < n as u64 && visited[a as usize] {
                proof {
                    assert(targets@.contains(a));
                }
                return true;
            }
            proof {
                let c = Set::new(|v: u64| v < n && visited@[v as int]);
                assert forall|x: u64, y: u64| #[trigger] c.contains(x) && #[trigger] g.step(x, y) implies c.contains(y) by {
                    assert(closed_at(g, visited@, x));
                }
                if reached_from(g, from@, a) {
                    let x = choose|x: u64| #[trigger] from@.contains(x) && g.reaches(x, a);
                    let kx = choose|kx: int| 0 <= kx < from@.len() && from@[kx] == x;
                    if x < n {
                        assert(visited@[from@[kx] as int]);
                        assert(c.contains(x));
                        lemma_closed_contains_reached(g, c, x, a);
                    } else {
                        assert forall|w: u64| !#[trigger] g.step(x, w) by {
                            if g.step(x, w) {
                                let e = choose|e: int|
                                    #![trigger g.edges[e].sources.contains(x), g.edges[e].destinations.contains(w)]
                                    g.edge_alive(e) && g.edges[e].sources.contains(x) && g.edges[e].destinations.contains(w);
                                assert(g.edge_ok(e));
                                let q = choose|q: int| 0 <= q < g.edges[e].sources.len() && g.edges[e].sources[q] == x;
                                assert(g.node_alive(g.edges[e].sources[q]));
                            }
                        }
                        lemma_reaches_from_sink(g, x, a);
                    }
                }
            }
            t = t + 1;
        }
        proof {
            assert forall|a: u64| #[trigger] targets@.contains(a) implies !reached_from(g, from@, a) by {
                let k = choose|k: int| 0 <= k < targets@.len() && targets@[k] == a;
                assert(!reached_from(g, from@, targets@[k]));
            }
        }
        false
    }

    /// Whether adding a hyperedge from `s` to `d` would close a directed cycle.
    fn would_create_cycle(&self, s: &Vec<u64>, d: &Vec<u64>) -> (b: bool)
        requires
            self.wf(),
            self@.config.causal_mode,
        ensures
            b == !self@.with_edge(s@, d@).acyclic(),
    {
        let r = self.reaches_any(d, s);
        proof {
            lemma_cycle_iff_reach(self@, s@, d@);
            if r {
                let a = choose|a: u64| #[trigger] s@.contains(a) && reached_from(self@, d@, a);
                let x = choose|x: u64| #[trigger] d@.contains(x) && self@.reaches(x, a);
                assert(s@.contains(a) && d@.contains(x) && self@.reaches(x, a));
            } else {
                assert forall|a: u64, x: u64| #[trigger] s@.contains(a) && #[trigger] d@.contains(x) implies !self@.reaches(x, a) by {
                    assert(!reached_from(self@, d@, a));
                }
            }
        }
        r
    }

    /// Why a hyperedge with these canonical endpoints cannot be attached, as in the model.
    fn attach_check(&self, s: &Vec<u64>, d: &Vec<u64>) -> (r: Option<AsmError>)
        requires
            self.wf(),
        ensures
            r == self@.attach_error(s@, d@),
    {
        if let Some(rule) = &self.config.k_uniform {
            if !rule.validate(s.len(), d.len()) {
                return Some(AsmError::InvalidArity { sources: s.len(), destinations: d.len() });
            }
        }
        if let Some(cap) = self.config.max_out_degree {
            let v = self.cap_violation(s, cap, true);
            if v.is_some() {
                return v;
            }
        }
        if let Some(cap) = self.config.max_in_degree {
            let v = self.cap_violation(d, cap, false);
            if v.is_some() {
                return v;
            }
        }
        if self.config.causal_mode && self.would_create_cycle(s, d) {
            return Some(AsmError::WouldCreateCycle);
        }
        if self.signature_exists(s, d) {
            return Some(AsmError::DuplicateEdge);
        }
        let u = self.unknown_node(s);
        if u.is_some() {
            return u;
        }
        self.unknown_node(d)
    }

    /// Removes a live hyperedge; its slot stays, dead, so ids are never reused.
    pub fn remove_hyperedge(&mut self, edge: EdgeId) -> (r: Result<(), AsmError>)
        requires
            old(self).wf(),
        ensures
            final(self).wf(),
            r is Ok <==> old(self)@.edge_alive(edge.raw as int),
            r is Err ==> r == Err::<(), AsmError>(AsmError::UnknownEdge { edge: edge.raw }) && final(self)@ == old(self)@,
            r is Ok ==> final(self)@ == old(self)@.with_slot(
                edge.raw as int,
                EdgeView { alive: false, ..old(self)@.edges[edge.raw as int] },
            ),
    {
        if !self.edge_is_live(edge.raw) {
            return Err(AsmError::UnknownEdge { edge: edge.raw });
        }
        self.deactivate_slot(edge.raw as usize);
        Ok(())
    }

    /// Adds a hyperedge from `sources` to `destinations` (each sorted and
    /// deduplicated first) after checking, in order: non-empty endpoints,
    /// uniformity, degree caps, cycles in causal mode, duplicates and unknown
    /// endpoints. The new edge takes the next slot. All checks run before
    /// anything is written, so a failed call leaves the graph exactly as it
    /// was; in particular an unknown endpoint met after others (with no cap
    /// set to catch it earlier) does not leave the new edge's id recorded at
    /// the endpoints before it.
    pub fn add_hyperedge(&mut self, sources: &[NodeId], destinations: &[NodeId]) -> (r: Result<EdgeId, AsmError>)
        requires
            old(self).wf(),
            old(self)@.edges.len() + 1 < usize::MAX,
        ensures
            final(self).wf(),
            match r {
                Ok(id) => old(self)@.add_edge_error(raw_ids(sources@), raw_ids(destinations@)) is None
                    && id.raw == old(self)@.edges.len()
                    && final(self)@ == old(self)@.with_edge(
                        canonical_of(raw_ids(sources@)),
                        canonical_of(raw_ids(destinations@)),
                    ),
                Err(e) => old(self)@.add_edge_error(raw_ids(sources@), raw_ids(destinations@)) == Some(e)
                    && final(self)@ == old(self)@,
            },
    {
        if sources.len() == 0 || destinations.len() == 0 {
            return Err(AsmError::EmptyEndpoints);
        }
        let s = canonicalize_nodes(sources);
        let d = canonicalize_nodes(destinations);
        proof {
            assert(raw_ids(sources@).to_set().contains(raw_ids(sources@)[0]));
            assert(s@.to_set().contains(raw_ids(sources@)[0]));
            assert(raw_ids(destinations@).to_set().contains(raw_ids(destinations@)[0]));
            assert(d@.to_set().contains(raw_ids(destinations@)[0]));
        }
        let check = self.attach_check(&s, &d);
        if check.is_some() {
            return Err(check.unwrap());
        }
        let id = self.edges.len();
        let ghost g0 = self@;
        let ghost dead = EdgeView { alive: false, sources: s@, destinations: d@ };
        proof {
            self.lemma_sets_finite();
            lemma_push_dead(g0, dead, s@, d@);
        }
        let ghost old_nodes = self.nodes@;
        self.edges.push(EdgeRecord { alive: false, sources: copy_raw(&s), destinations: copy_raw(&d) });
        proof {
            let g1 = self@;
            assert(g1.edges =~= g0.edges.push(dead));
            assert(g1.nodes =~= g0.nodes);
            assert forall|n: u64| n < self.nodes@.len() implies #[trigger] self.nodes@[n as int].matches(self@, n) by {
                assert(old_nodes[n as int].matches(g0, n));
            }
            lemma_attach_well_formed(g1, id as u64, s@, d@);
            let target = g1.with_slot(id as int, EdgeView { alive: true, sources: s@, destinations: d@ });
            assert(target.edge_alive(id as int));
        }
        self.fill_slot(id, s, d);
        Ok(EdgeId { raw: id as u64 })
    }

    /// Replaces the endpoints of live hyperedge `edge` (sorted and
    /// deduplicated first), checking the new endpoints against the graph
    /// without the edge; on failure the edge is restored unchanged.
    pub(crate) fn overwrite_edge(&mut self, edge: EdgeId, new_sources: &[NodeId], new_destinations: &[NodeId]) -> (r: Result<(), AsmError>)
        requires
            old(self).wf(),
            new_sources@.len() > 0,
            new_destinations@.len() > 0,
        ensures
            final(self).wf(),
            !old(self)@.edge_alive(edge.raw as int) ==> r == Err::<(), AsmError>(AsmError::UnknownEdge { edge: edge.raw }),
            old(self)@.edge_alive(edge.raw as int) ==> match r {
                Ok(_) => detached(old(self)@, edge.raw as int).attach_error(
                    canonical_of(raw_ids(new_sources@)),
                    canonical_of(raw_ids(new_destinations@)),
                ) is None && final(self)@ == old(self)@.with_slot(
                    edge.raw as int,
                    EdgeView {
                        alive: true,
                        sources: canonical_of(raw_ids(new_sources@)),
                        destinations: canonical_of(raw_ids(new_destinations@)),
                    },
                ),
                Err(e) => detached(old(self)@, edge.raw as int).attach_error(
                    canonical_of(raw_ids(new_sources@)),
                    canonical_of(raw_ids(new_destinations@)),
                ) == Some(e),
            },
            r is Err ==> final(self)@ == old(self)@,
    {
        if !self.edge_is_live(edge.raw) {
            return Err(AsmError::UnknownEdge { edge: edge.raw });
        }
        let idx = edge.raw as usize;
        let ghost g0 = self@;
        proof {
            self.lemma_view_facts();
        }
        let prev_s = copy_raw(&self.edges[idx].sources);
        let prev_d = copy_raw(&self.edges[idx].destinations);
        self.deactivate_slot(idx);
        let s = canonicalize_nodes(new_sources);
        let d = canonicalize_nodes(new_destinations);
        proof {
            assert(raw_ids(new_sources@).to_set().contains(raw_ids(new_sources@)[0]));
            assert(s@.to_set().contains(raw_ids(new_sources@)[0]));
            assert(raw_ids(new_destinations@).to_set().contains(raw_ids(new_destinations@)[0]));
            assert(d@.to_set().contains(raw_ids(new_destinations@)[0]));
        }
        let check = self.attach_check(&s, &d);
        if check.is_some() {
            proof {
                let g1 = self@;
                assert(g1.with_slot(idx as int, EdgeView { alive: true, sources: prev_s@, destinations: prev_d@ }).edges
                    =~= g0.edges);
                assert(g0.edge_alive(idx as int));
            }
            self.fill_slot(idx, prev_s, prev_d);
            proof {
                assert(self@.edges =~= g0.edges);
            }
            return Err(check.unwrap());
        }
        proof {
            self.lemma_sets_finite();
            lemma_attach_well_formed(self@, idx as u64, s@, d@);
            let target = self@.with_slot(idx as int, EdgeView { alive: true, sources: s@, destinations: d@ });
            assert(target.edge_alive(idx as int));
        }
        self.fill_slot(idx, s, d);
        proof {
            assert(self@.edges =~= g0.edges.update(idx as int, EdgeView { alive: true, sources: s@, destinations: d@ }));
        }
        Ok(())
    }

    /// Appends a dead hyperedge slot holding the given raw endpoints as they are.
    pub(crate) fn push_dead_edge(&mut self, sources: Vec<u64>, destinations: Vec<u64>)
        requires
            old(self).wf(),
            old(self)@.edges.len() + 1 < usize::MAX,
        ensures
            final(self).wf(),
            final(self)@ == (GraphView {
                config: old(self)@.config,
                nodes: old(self)@.nodes,
                edges: old(self)@.edges.push(EdgeView { alive: false, sources: sources@, destinations: destinations@ }),
            }),
    {
        let ghost g0 = self@;
        let ghost dead = EdgeView { alive: false, sources: sources@, destinations: destinations@ };
        proof {
            lemma_push_dead(g0, dead, sources@, destinations@);
        }
        let ghost old_nodes = self.nodes@;
        self.edges.push(EdgeRecord { alive: false, sources, destinations });
        proof {
            assert(self@.edges =~= g0.edges.push(dead));
            assert(self@.nodes =~= g0.nodes);
            assert forall|n: u64| n < self.nodes@.len() implies #[trigger] self.nodes@[n as int].matches(self@, n) by {
                assert(old_nodes[n as int].matches(g0, n));
            }
        }
    }

    /// A deep copy of the graph.
    pub fn duplicate(&self) -> (g: HypergraphImpl)
        requires
            self.wf(),
        ensures
            g.wf(),
            g@ == self@,
    {
        let mut nodes: Vec<NodeRecord> = Vec::new();
        let mut i: usize = 0;
        while i < self.nodes.len()
            invariant
                i <= self.nodes@.len(),
                nodes@.len() == i,
                forall|k: int| 0 <= k < i ==> (#[trigger] nodes@[k]).alive == self.nodes@[k].alive
                    && nodes@[k].in_edges@ == self.nodes@[k].in_edges@
                    && nodes@[k].out_edges@ == self.nodes@[k].out_edges@,
            decreases self.nodes@.len() - i,
        {
            let r = &self.nodes[i];
            nodes.push(NodeRecord { alive: r.alive, in_edges: copy_raw(&r.in_edges), out_edges: copy_raw(&r.out_edges) });
            i = i + 1;
        }
        let mut edges: Vec<EdgeRecord> = Vec::new();
        let mut j: usize = 0;
        while j < self.edges.len()
            invariant
                j <= self.edges@.len(),
                edges@.len() == j,
                forall|k: int| 0 <= k < j ==> (#[trigger] edges@[k]).spec_view() == self.edges@[k].spec_view(),
            decreases self.edges@.len() - j,
        {
            let r = &self.edges[j];
            edges.push(EdgeRecord { alive: r.alive, sources: copy_raw(&r.sources), destinations: copy_raw(&r.destinations) });
            j = j + 1;
        }
        let g = HypergraphImpl { config: self.config, nodes, edges };
        proof {
            assert(g@.nodes =~= self@.nodes);
            assert(g@.edges =~= self@.edges);
            assert forall|n: u64| n < g.nodes@.len() implies #[trigger] g.nodes@[n as int].matches(g@, n) by {
                assert(self.nodes@[n as int].matches(self@, n));
            }
        }
        g
    }

    /// Minimum and maximum inbound and outbound degrees over the live nodes;
    /// all `None` when no node is live.
    pub fn degree_bounds(&self) -> (r: Result<DegreeBounds, AsmError>)
        requires
            self.wf(),
        ensures
            match r {
                Ok(b) => {
                    &&& (exists|n: u64| self@.node_alive(n)) <==> b.min_in_degree is Some
                    &&& b.min_in_degree is Some <==> b.max_in_degree is Some
                    &&& b.min_in_degree is Some <==> b.min_out_degree is Some
                    &&& b.min_in_degree is Some <==> b.max_out_degree is Some
                    &&& b.min_in_degree is Some ==> is_min_degree(self@, b.min_in_degree->0 as int, false)
                    &&& b.max_in_degree is Some ==> is_max_degree(self@, b.max_in_degree->0 as int, false)
                    &&& b.min_out_degree is Some ==> is_min_degree(self@, b.min_out_degree->0 as int, true)
                    &&& b.max_out_degree is Some ==> is_max_degree(self@, b.max_out_degree->0 as int, true)
                },
                Err(_) => false,
            },
    {
        let mut min_in: Option<usize> = None;
        let mut max_in: Option<usize> = None;
        let mut min_out: Option<usize> = None;
        let mut max_out: Option<usize> = None;
        proof {
            self.lemma_view_facts();
        }
        let mut i: usize = 0;
        while i < self.nodes.len()
            invariant
                self.wf(),
                i <= self.nodes@.len(),
                (exists|n: u64| n < i && self@.node_alive(n)) <==> min_in is Some,
                min_in is Some <==> max_in is Some,
                min_in is Some <==> min_out is Some,
                min_in is Some <==> max_out is Some,
                min_in is Some ==> is_min_degree_below(self@, min_in->0 as int, false, i as int),
                max_in is Some ==> is_max_degree_below(self@, max_in->0 as int, false, i as int),
                min_out is Some ==> is_min_degree_below(self@, min_out->0 as int, true, i as int),
                max_out is Some ==> is_max_degree_below(self@, max_out->0 as int, true, i as int),
            decreases self.nodes@.len() - i,
        {
            proof {
                self.lemma_view_facts();
            }
            if self.nodes[i].alive {
                proof {
                    self.lemma_degrees(i as u64);
                    assert(self@.node_alive(i as u64));
                }
                let din = self.nodes[i].in_edges.len();
                let dout = self.nodes[i].out_edges.len();
                min_in = Some(match min_in { Some(v) => if din < v { din } else { v }, None => din });
                max_in = Some(match max_in { Some(v) => if din > v { din } else { v }, None => din });
                min_out = Some(match min_out { Some(v) => if dout < v { dout } else { v }, None => dout });
                max_out = Some(match max_out { Some(v) => if dout > v { dout } else { v }, None => dout });
                proof {
                    assert(degree_of(self@, i as u64, false) == din as int);
                    assert(degree_of(self@, i as u64, true) == dout as int);
                }
            } else {
                proof {
                    assert(!self@.node_alive(i as u64));
                }
            }
            i = i + 1;
        }
        proof {
            if exists|n: u64| self@.node_alive(n) {
                let n = choose|n: u64| self@.node_alive(n);
                assert(n < i);
            }
        }
        Ok(DegreeBounds { min_in_degree: min_in, max_in_degree: max_in, min_out_degree: min_out, max_out_degree: max_out })
    }

    /// The liveness flag of every node slot, in slot order.
    pub(crate) fn node_states(&self) -> (v: Vec<bool>)
        ensures
            v@ == self@.nodes,
    {
        let mut v: Vec<bool> = Vec::new();
        let mut i: usize = 0;
        while i < self.nodes.len()
            invariant
                i <= self.nodes@.len(),
                v@ == self@.nodes.take(i as int),
            decreases self.nodes@.len() - i,
        {
            v.push(self.nodes[i].alive);
            proof {
                assert(v@ =~= self@.nodes.take(i + 1));
            }
            i = i + 1;
        }
        proof {
            assert(self@.nodes.take(self.nodes@.len() as int) =~= self@.nodes);
        }
        v
    }

    /// The liveness and raw endpoints of hyperedge slot `i`.
    pub(crate) fn edge_payload(&self, i: usize) -> (p: (bool, Vec<u64>, Vec<u64>))
        requires
            i < self@.edges.len(),
        ensures
            p.0 == self@.edges[i as int].alive,
            p.1@ == self@.edges[i as int].sources,
            p.2@ == self@.edges[i as int].destinations,
    {
        let r = &self.edges[i];
        (r.alive, copy_raw(&r.sources), copy_raw(&r.destinations))
    }

    /// The number of hyperedge slots, live or dead.
    pub fn edge_slot_count(&self) -> (n: usize)
        ensures
            n == self@.edges.len(),
    {
        self.edges.len()
    }

    /// The number of node slots, live or dead.
    pub fn node_slot_count(&self) -> (n: usize)
        ensures
            n == self@.nodes.len(),
    {
        self.nodes.len()
    }

    /// Every adjacency set of a consistent graph is finite.
    pub proof fn lemma_wf_sets_finite(&self)
        requires
            self.wf(),
        ensures
            sets_finite(self@),
            self@.well_formed(),
            self@.edges.len() < usize::MAX,
            self@.nodes.len() < usize::MAX,
    {
        self.lemma_sets_finite();
        self.lemma_view_facts();
    }

    /// Adds a live node and returns its id, the index of its slot.
    pub fn add_node(&mut self) -> (r: Result<NodeId, AsmError>)
        requires
            old(self).wf(),
            old(self)@.nodes.len() + 1 < usize::MAX,
        ensures
            final(self).wf(),
            r == Ok::<NodeId, AsmError>(NodeId { raw: old(self)@.nodes.len() as u64 }),
            final(self)@ == (GraphView {
                config: old(self)@.config,
                nodes: old(self)@.nodes.push(true),
                edges: old(self)@.edges,
            }),
    {
        let ghost g0 = self@;
        let id = self.nodes.len();
        proof {
            self.lemma_dead_node_isolated(id as u64);
        }
        self.nodes.push(NodeRecord { alive: true, in_edges: Vec::new(), out_edges: Vec::new() });
        proof {
            let g1 = self@;
            assert(g1.nodes =~= g0.nodes.push(true));
            assert(g1.edges =~= g0.edges);
            lemma_same_edges(g0, g1);
            assert forall|n: u64| n < self.nodes@.len() implies #[trigger] self.nodes@[n as int].matches(self@, n) by {
                if n == id {
                    assert(self.nodes@[n as int].out_edges@.to_set() =~= Set::<u64>::empty());
                    assert(self.nodes@[n as int].in_edges@.to_set() =~= Set::<u64>::empty());
                } else {
                    assert(old(self).nodes@[n as int].matches(g0, n));
                }
            }
            assert forall|e: int| #[trigger] g1.edge_alive(e) implies g1.edge_ok(e) by {
                assert(g0.edge_alive(e));
                assert(g0.edge_ok(e));
                let edge = g1.edges[e];
                assert forall|k: int| 0 <= k < edge.sources.len() implies g1.node_alive(#[trigger] edge.sources[k]) by {
                    assert(g0.node_alive(edge.sources[k]));
                }
                assert forall|k: int| 0 <= k < edge.destinations.len() implies g1.node_alive(#[trigger] edge.destinations[k]) by {
                    assert(g0.node_alive(edge.destinations[k]));
                }
            }
            assert forall|n: u64| g1.node_alive(n) && g1.config.max_out_degree is Some implies #[trigger] g1.out_set(n).len()
                <= g1.config.max_out_degree->0 by {
                if n == id {
                    assert(g1.out_set(n) =~= Set::<u64>::empty());
                } else {
                    assert(g0.node_alive(n));
                    assert(g0.out_set(n) == g1.out_set(n));
                }
            }
            assert forall|n: u64| g1.node_alive(n) && g1.config.max_in_degree is Some implies #[trigger] g1.in_set(n).len()
                <= g1.config.max_in_degree->0 by {
                if n == id {
                    assert(g1.in_set(n) =~= Set::<u64>::empty());
                } else {
                    assert(g0.node_alive(n));
                    assert(g0.in_set(n) == g1.in_set(n));
                }
            }
            assert(g1.acyclic() == g0.acyclic());
        }
        Ok(NodeId { raw: id as u64 })
    }
}

} // verus!
