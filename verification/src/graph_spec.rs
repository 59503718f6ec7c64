//! Mathematical model of a hypergraph: node liveness, hyperedge endpoints,
//! degrees, directed reachability and acyclicity.
use vstd::prelude::*;
use crate::errors::AsmError;
use crate::flags::HypergraphConfig;
use crate::ids::{canonical_of, strictly_sorted};

verus! {

/// A hyperedge slot as seen by specifications: whether it is live and its
/// raw source and destination identifiers.
pub struct EdgeView {
    pub alive: bool,
    pub sources: Seq<u64>,
    pub destinations: Seq<u64>,
}

/// A hypergraph as seen by specifications. Slot `i` of `nodes` tells whether
/// node `i` is live; slot `i` of `edges` describes hyperedge `i`.
pub struct GraphView {
    pub config: HypergraphConfig,
    pub nodes: Seq<bool>,
    pub edges: Seq<EdgeView>,
}

impl GraphView {
    pub open spec fn node_alive(self, n: u64) -> bool {
        n < self.nodes.len() && self.nodes[n as int]
    }

    pub open spec fn edge_alive(self, e: int) -> bool {
        0 <= e < self.edges.len() && self.edges[e].alive
    }

    /// The live hyperedges having `n` among their sources.
    pub open spec fn out_set(self, n: u64) -> Set<u64> {
        Set::new(|e: u64| self.edge_alive(e as int) && self.edges[e as int].sources.contains(n))
    }

    /// The live hyperedges having `n` among their destinations.
    pub open spec fn in_set(self, n: u64) -> Set<u64> {
        Set::new(|e: u64| self.edge_alive(e as int) && self.edges[e as int].destinations.contains(n))
    }

    pub open spec fn out_degree(self, n: u64) -> nat {
        self.out_set(n).len()
    }

    pub open spec fn in_degree(self, n: u64) -> nat {
        self.in_set(n).len()
    }

    /// A live hyperedge leads from `u` to `v`.
    pub open spec fn step(self, u: u64, v: u64) -> bool {
        exists|e: int|
            #![trigger self.edges[e].sources.contains(u), self.edges[e].destinations.contains(v)]
            self.edge_alive(e) && self.edges[e].sources.contains(u)
                && self.edges[e].destinations.contains(v)
    }

    /// Position `i` of `p` is followed by a step to position `i + 1`.
    pub open spec fn link(self, p: Seq<u64>, i: int) -> bool {
        self.step(p[i], p[i + 1])
    }

    /// `p` is a directed walk along live hyperedges.
    pub open spec fn is_path(self, p: Seq<u64>) -> bool {
        forall|i: int| 0 <= i < p.len() - 1 ==> #[trigger] self.link(p, i)
    }

    /// `v` can be reached from `u` in zero or more steps.
    pub open spec fn reaches(self, u: u64, v: u64) -> bool {
        exists|p: Seq<u64>| #[trigger] self.is_path(p) && p.len() >= 1 && p[0] == u && p.last() == v
    }

    /// No directed walk of one or more steps returns to its start.
    pub open spec fn acyclic(self) -> bool {
        forall|p: Seq<u64>| #[trigger] self.is_path(p) && p.len() >= 2 ==> p[0] != p.last()
    }

    /// Some live hyperedge has exactly these endpoints.
    pub open spec fn has_signature(self, sources: Seq<u64>, destinations: Seq<u64>) -> bool {
        exists|e: int| #[trigger]
            self.edges[e] == (EdgeView { alive: true, sources, destinations }) && 0 <= e
                < self.edges.len()
    }

    /// The graph with one more live hyperedge appended.
    pub open spec fn with_edge(self, sources: Seq<u64>, destinations: Seq<u64>) -> GraphView {
        GraphView {
            config: self.config,
            nodes: self.nodes,
            edges: self.edges.push(EdgeView { alive: true, sources, destinations }),
        }
    }

    /// The graph with slot `e` replaced.
    pub open spec fn with_slot(self, e: int, edge: EdgeView) -> GraphView {
        GraphView { config: self.config, nodes: self.nodes, edges: self.edges.update(e, edge) }
    }

    /// Endpoints of a live hyperedge are canonical, non-empty, live nodes,
    /// and meet the uniformity rule.
    pub open spec fn edge_ok(self, e: int) -> bool {
        let edge = self.edges[e];
        &&& strictly_sorted(edge.sources)
        &&& strictly_sorted(edge.destinations)
        &&& edge.sources.len() > 0
        &&& edge.destinations.len() > 0
        &&& forall|k: int| 0 <= k < edge.sources.len() ==> self.node_alive(#[trigger] edge.sources[k])
        &&& forall|k: int|
            0 <= k < edge.destinations.len() ==> self.node_alive(#[trigger] edge.destinations[k])
        &&& self.config.arity_ok(edge.sources.len() as int, edge.destinations.len() as int)
    }

    /// The structural invariants every graph built by this library keeps:
    /// canonical live endpoints, no two live hyperedges with the same
    /// endpoints, degree caps respected, and no directed cycle in causal mode.
    pub open spec fn well_formed(self) -> bool {
        &&& forall|e: int| #[trigger] self.edge_alive(e) ==> self.edge_ok(e)
        &&& forall|e1: int, e2: int|
            #![trigger self.edges[e1], self.edges[e2]]
            self.edge_alive(e1) && self.edge_alive(e2) && e1 != e2 ==> !(self.edges[e1].sources
                == self.edges[e2].sources && self.edges[e1].destinations
                == self.edges[e2].destinations)
        &&& forall|n: u64|
            #![trigger self.out_set(n)]
            self.node_alive(n) && self.config.max_out_degree is Some ==> self.out_degree(n)
                <= self.config.max_out_degree->0
        &&& forall|n: u64|
            #![trigger self.in_set(n)]
            self.node_alive(n) && self.config.max_in_degree is Some ==> self.in_degree(n)
                <= self.config.max_in_degree->0
        &&& self.config.causal_mode ==> self.acyclic()
    }

    /// Node `n` is live and has room for one more outbound (or inbound) hyperedge under `cap`.
    pub open spec fn has_room(self, n: u64, cap: usize, outbound: bool) -> bool {
        &&& self.node_alive(n)
        &&& (if outbound { self.out_degree(n) } else { self.in_degree(n) }) + 1 <= cap
    }

    /// The first problem met when checking, in order, that every node of
    /// `nodes[i..]` is live and has room for one more outbound (or inbound)
    /// hyperedge under `cap`.
    pub open spec fn first_cap_violation(self, nodes: Seq<u64>, cap: usize, outbound: bool, i: int) -> Option<AsmError>
        decreases nodes.len() - i,
    {
        if i < 0 || i >= nodes.len() {
            None
        } else {
            let n = nodes[i];
            let d = if outbound { self.out_degree(n) } else { self.in_degree(n) };
            if !self.node_alive(n) {
                Some(AsmError::UnknownNode { node: n })
            } else if d + 1 > cap {
                if outbound {
                    Some(AsmError::OutDegreeCap { node: n, cap, attempted: (d + 1) as usize })
                } else {
                    Some(AsmError::InDegreeCap { node: n, cap, attempted: (d + 1) as usize })
                }
            } else {
                self.first_cap_violation(nodes, cap, outbound, i + 1)
            }
        }
    }

    /// The first node of `nodes[i..]` that is not live.
    pub open spec fn first_unknown(self, nodes: Seq<u64>, i: int) -> Option<AsmError>
        decreases nodes.len() - i,
    {
        if i < 0 || i >= nodes.len() {
            None
        } else if !self.node_alive(nodes[i]) {
            Some(AsmError::UnknownNode { node: nodes[i] })
        } else {
            self.first_unknown(nodes, i + 1)
        }
    }

    /// Why a hyperedge with canonical endpoints cannot be attached, if it
    /// cannot: the checks run in order arity, outbound caps, inbound caps,
    /// cycles (causal mode only), duplicates, unknown endpoints.
    pub open spec fn attach_error(self, sources: Seq<u64>, destinations: Seq<u64>) -> Option<AsmError> {
        let out_check = match self.config.max_out_degree {
            Some(cap) => self.first_cap_violation(sources, cap, true, 0),
            None => None,
        };
        let in_check = match self.config.max_in_degree {
            Some(cap) => self.first_cap_violation(destinations, cap, false, 0),
            None => None,
        };
        if !self.config.arity_ok(sources.len() as int, destinations.len() as int) {
            Some(
                AsmError::InvalidArity {
                    sources: sources.len() as usize,
                    destinations: destinations.len() as usize,
                },
            )
        } else if out_check is Some {
            out_check
        } else if in_check is Some {
            in_check
        } else if self.config.causal_mode && !self.with_edge(sources, destinations).acyclic() {
            Some(AsmError::WouldCreateCycle)
        } else if self.has_signature(sources, destinations) {
            Some(AsmError::DuplicateEdge)
        } else if self.first_unknown(sources, 0) is Some {
            self.first_unknown(sources, 0)
        } else {
            self.first_unknown(destinations, 0)
        }
    }

    /// Why a hyperedge with the given (raw, uncanonical) endpoints cannot be added, if it cannot.
    pub open spec fn add_edge_error(self, sources: Seq<u64>, destinations: Seq<u64>) -> Option<AsmError> {
        if sources.len() == 0 || destinations.len() == 0 {
            Some(AsmError::EmptyEndpoints)
        } else {
            self.attach_error(canonical_of(sources), canonical_of(destinations))
        }
    }
}

} // verus!
