//! Local rewiring moves on a hypergraph: swapping the destination sets of two
//! hyperedges, retargeting destinations, and moving load from the busiest
//! destination of an edge to the least loaded node. Each move either applies
//! completely or leaves the graph as it was.
use vstd::prelude::*;
use crate::errors::AsmError;
use crate::graph_spec::{EdgeView, GraphView};
use crate::hash::{canonical_hash, canonical_hash_of};
use crate::hypergraph::{HypergraphImpl, detached, edge_raw_ids};
use crate::ids::{NodeId, EdgeId, raw_ids, strictly_sorted, canonical_of, lemma_canonical_of, canonicalize_nodes, to_node_ids, vec_eq_raw};
use crate::rng::{choose_edge, clone_rng};
use rand::rngs::StdRng;

verus! {

/// Result of performing a rewiring move.
#[derive(Debug)]
pub struct RewireOutcome {
    /// Indicates whether the graph structure changed.
    pub changed: bool,
    /// Canonical structural hash of the graph after the move.
    pub hash: String,
}

/// Outcome of running a validator without mutating the graph.
#[derive(Debug)]
pub enum RewireDryRun {
    /// The move would succeed; the hash of the resulting graph is given when
    /// the move changes the structure.
    Valid { hash_preview: Option<String> },
    /// The move would fail with the provided error.
    Invalid(AsmError),
}

/// A live hyperedge slot with the given endpoints.
pub open spec fn live_edge(sources: Seq<u64>, destinations: Seq<u64>) -> EdgeView {
    EdgeView { alive: true, sources, destinations }
}

/// Giving live hyperedge `e` new canonical endpoints: the checks of attaching
/// them to the graph without `e`, and the graph with `e` replaced.
pub open spec fn replace_outcome(g: GraphView, e: u64, s: Seq<u64>, d: Seq<u64>) -> Result<(bool, GraphView), AsmError> {
    match detached(g, e as int).attach_error(s, d) {
        Some(err) => Err(err),
        None => Ok((true, g.with_slot(e as int, live_edge(s, d)))),
    }
}

/// A move's result together with the graph it leaves: whether the structure
/// changed and the new graph, or the error.
pub open spec fn as_outcome(r: Result<bool, AsmError>, after: GraphView) -> Result<(bool, GraphView), AsmError> {
    match r {
        Ok(c) => Ok((c, after)),
        Err(e) => Err(e),
    }
}

/// What a dry run reports for a move outcome: the error, or validity with the
/// resulting hash when the structure changes.
pub open spec fn dry_run_of(o: Result<(bool, GraphView), AsmError>, r: RewireDryRun) -> bool {
    match o {
        Ok((changed, after)) => match r {
            RewireDryRun::Valid { hash_preview } => if changed {
                hash_preview is Some && hash_preview->0@ == canonical_hash_of(after)
            } else {
                hash_preview is None
            },
            RewireDryRun::Invalid(_) => false,
        },
        Err(e) => r == RewireDryRun::Invalid(e),
    }
}

/// Swapping the destination sets of hyperedges `a` and `b`: nothing when they
/// are the same edge or already share their destinations; otherwise `a` takes
/// `b`'s destinations, then `b` takes `a`'s, each step checked like a new edge.
pub open spec fn swap_outcome(g: GraphView, a: u64, b: u64) -> Result<(bool, GraphView), AsmError> {
    if a == b {
        Ok((false, g))
    } else if !g.edge_alive(a as int) {
        Err(AsmError::UnknownEdge { edge: a })
    } else if !g.edge_alive(b as int) {
        Err(AsmError::UnknownEdge { edge: b })
    } else if g.edges[a as int].destinations == g.edges[b as int].destinations {
        Ok((false, g))
    } else {
        let ea = g.edges[a as int];
        let eb = g.edges[b as int];
        match replace_outcome(g, a, ea.sources, eb.destinations) {
            Err(err) => Err(err),
            Ok((_, g1)) => replace_outcome(g1, b, eb.sources, ea.destinations),
        }
    }
}

/// The endpoints of a live hyperedge are their own canonical form and non-empty.
pub(crate) proof fn lemma_live_canonical(g: GraphView, e: int)
    requires
        g.well_formed(),
        g.edge_alive(e),
    ensures
        canonical_of(g.edges[e].sources) == g.edges[e].sources,
        canonical_of(g.edges[e].destinations) == g.edges[e].destinations,
        g.edges[e].sources.len() > 0,
        g.edges[e].destinations.len() > 0,
        strictly_sorted(g.edges[e].sources),
        strictly_sorted(g.edges[e].destinations),
{
    assert(g.edge_ok(e));
    lemma_canonical_of(g.edges[e].sources, g.edges[e].sources);
    lemma_canonical_of(g.edges[e].destinations, g.edges[e].destinations);
}

/// Whether two id lists hold the same ids in the same order.
fn same_ids(a: &Vec<NodeId>, b: &Vec<NodeId>) -> (r: bool)
    ensures
        r == (raw_ids(a@) == raw_ids(b@)),
{
    if a.len() != b.len() {
        return false;
    }
    let mut i: usize = 0;
    while i < a.len()
        invariant
            a@.len() == b@.len(),
            i <= a@.len(),
            forall|k: int| 0 <= k < i ==> a@[k].raw == b@[k].raw,
        decreases a@.len() - i,
    {
        if a[i].raw != b[i].raw {
            assert(raw_ids(a@)[i as int] != raw_ids(b@)[i as int]);
            return false;
        }
        i = i + 1;
    }
    assert(raw_ids(a@) =~= raw_ids(b@));
    true
}

fn swap_targets_impl(graph: &mut HypergraphImpl, edge_a: EdgeId, edge_b: EdgeId) -> (r: Result<bool, AsmError>)
    requires
        old(graph).wf(),
    ensures
        final(graph).wf(),
        as_outcome(r, final(graph)@) == swap_outcome(old(graph)@, edge_a.raw, edge_b.raw),
        r is Err ==> final(graph)@ == old(graph)@,
{
    let ghost g = graph@;
    proof {
        graph.lemma_wf_sets_finite();
    }
    if edge_a.raw == edge_b.raw {
        return Ok(false);
    }
    let sources_a = match graph.src_of(edge_a) {
        Ok(v) => v,
        Err(e) => return Err(e),
    };
    let sources_b = match graph.src_of(edge_b) {
        Ok(v) => v,
        Err(e) => return Err(e),
    };
    let targets_a = match graph.dst_of(edge_a) {
        Ok(v) => v,
        Err(e) => return Err(e),
    };
    let targets_b = match graph.dst_of(edge_b) {
        Ok(v) => v,
        Err(e) => return Err(e),
    };
    if same_ids(&targets_a, &targets_b) {
        return Ok(false);
    }
    let ghost ea = g.edges[edge_a.raw as int];
    let ghost eb = g.edges[edge_b.raw as int];
    proof {
        lemma_live_canonical(g, edge_a.raw as int);
        lemma_live_canonical(g, edge_b.raw as int);
    }
    match graph.overwrite_edge(edge_a, sources_a.as_slice(), targets_b.as_slice()) {
        Ok(_) => {},
        Err(e) => return Err(e),
    }
    let ghost g1 = graph@;
    proof {
        assert(g1 == g.with_slot(edge_a.raw as int, live_edge(ea.sources, eb.destinations)));
        assert(g1.edges[edge_b.raw as int] == eb);
    }
    match graph.overwrite_edge(edge_b, sources_b.as_slice(), targets_a.as_slice()) {
        Ok(_) => Ok(true),
        Err(err) => {
            let s = canonicalize_nodes(sources_a.as_slice());
            let d = canonicalize_nodes(targets_a.as_slice());
            proof {
                assert(g1.with_slot(edge_a.raw as int, live_edge(s@, d@)).edges =~= g.edges);
                assert(g1.with_slot(edge_a.raw as int, live_edge(s@, d@)) == g);
            }
            graph.replace_slot(edge_a.raw as usize, s, d);
            proof {
                assert(graph@.edges =~= g.edges);
            }
            Err(err)
        },
    }
}

/// Swaps the destination sets of two hyperedges and reports the resulting
/// canonical hash. A failed swap leaves the graph unchanged.
pub fn rewire_swap_targets(graph: &mut HypergraphImpl, edge_a: EdgeId, edge_b: EdgeId) -> (r: Result<RewireOutcome, AsmError>)
    requires
        old(graph).wf(),
    ensures
        final(graph).wf(),
        match r {
            Ok(o) => swap_outcome(old(graph)@, edge_a.raw, edge_b.raw) == Ok::<(bool, GraphView), AsmError>((o.changed, final(graph)@))
                && o.hash@ == canonical_hash_of(final(graph)@),
            Err(e) => swap_outcome(old(graph)@, edge_a.raw, edge_b.raw) == Err::<(bool, GraphView), AsmError>(e)
                && final(graph)@ == old(graph)@,
        },
{
    let changed = match swap_targets_impl(graph, edge_a, edge_b) {
        Ok(c) => c,
        Err(e) => return Err(e),
    };
    let hash = match canonical_hash(graph) {
        Ok(h) => h,
        Err(e) => return Err(e),
    };
    Ok(RewireOutcome { changed, hash })
}

/// Reports what [`rewire_swap_targets`] would do, on a copy of the graph.
pub fn rewire_swap_targets_dry_run(graph: &HypergraphImpl, edge_a: EdgeId, edge_b: EdgeId) -> (r: RewireDryRun)
    requires
        graph.wf(),
    ensures
        dry_run_of(swap_outcome(graph@, edge_a.raw, edge_b.raw), r),
{
    let mut trial = graph.duplicate();
    match swap_targets_impl(&mut trial, edge_a, edge_b) {
        Ok(changed) => {
            let hash_preview = if changed {
                match canonical_hash(&trial) {
                    Ok(h) => Some(h),
                    Err(_) => None,
                }
            } else {
                None
            };
            RewireDryRun::Valid { hash_preview }
        },
        Err(err) => RewireDryRun::Invalid(err),
    }
}


/// The entries of `s` that are not in `removed`, in order.
pub open spec fn without(s: Seq<u64>, removed: Seq<u64>) -> Seq<u64>
    decreases s.len(),
{
    if s.len() == 0 {
        Seq::empty()
    } else if removed.contains(s.last()) {
        without(s.drop_last(), removed)
    } else {
        without(s.drop_last(), removed).push(s.last())
    }
}

/// The first entry of `removed[i..]` that is not in `destinations`.
pub open spec fn first_missing(destinations: Seq<u64>, removed: Seq<u64>, i: int) -> Option<u64>
    decreases removed.len() - i,
{
    if i < 0 || i >= removed.len() {
        None
    } else if !destinations.contains(removed[i]) {
        Some(removed[i])
    } else {
        first_missing(destinations, removed, i + 1)
    }
}

/// Retargeting hyperedge `e`: drop the `removed` destinations, add the
/// `added` ones, and store the result sorted and deduplicated. Every removed
/// node must be a destination and every added node live; the edge must keep
/// a destination; an unchanged destination set changes nothing.
pub open spec fn retarget_outcome(g: GraphView, e: u64, removed: Seq<u64>, added: Seq<u64>) -> Result<(bool, GraphView), AsmError> {
    if !g.edge_alive(e as int) {
        Err(AsmError::UnknownEdge { edge: e })
    } else if removed.len() == 0 && added.len() == 0 {
        Ok((false, g))
    } else {
        let d = g.edges[e as int].destinations;
        match first_missing(d, removed, 0) {
            Some(n) => Err(AsmError::MissingDestination { edge: e, node: n }),
            None => match g.first_unknown(added, 0) {
                Some(err) => Err(err),
                None => {
                    let nd = canonical_of(without(d, removed) + added);
                    if nd.len() == 0 {
                        Err(AsmError::EmptyDestinations)
                    } else if nd == d {
                        Ok((false, g))
                    } else {
                        replace_outcome(g, e, g.edges[e as int].sources, nd)
                    }
                },
            },
        }
    }
}

/// Whether `x` is among the ids.
pub(crate) fn contains_id(ids: &[NodeId], x: u64) -> (r: bool)
    ensures
        r == raw_ids(ids@).contains(x),
{
    let mut i: usize = 0;
    while i < ids.len()
        invariant
            i <= ids@.len(),
            forall|k: int| 0 <= k < i ==> ids@[k].raw != x,
        decreases ids@.len() - i,
    {
        if ids[i].raw == x {
            assert(raw_ids(ids@)[i as int] == x);
            return true;
        }
        i = i + 1;
    }
    proof {
        if raw_ids(ids@).contains(x) {
            let k = choose|k: int| 0 <= k < raw_ids(ids@).len() && raw_ids(ids@)[k] == x;
            assert(ids@[k].raw == x);
        }
    }
    false
}

fn retarget_impl(graph: &mut HypergraphImpl, edge: EdgeId, removed: &[NodeId], added: &[NodeId]) -> (r: Result<bool, AsmError>)
    requires
        old(graph).wf(),
    ensures
        final(graph).wf(),
        as_outcome(r, final(graph)@) == retarget_outcome(old(graph)@, edge.raw, raw_ids(removed@), raw_ids(added@)),
        r is Err ==> final(graph)@ == old(graph)@,
{
    let ghost g = graph@;
    let ghost rm = raw_ids(removed@);
    let ghost ad = raw_ids(added@);
    proof {
        graph.lemma_wf_sets_finite();
    }
    let sources = match graph.src_of(edge) {
        Ok(v) => v,
        Err(e) => return Err(e),
    };
    let destinations = match graph.dst_of(edge) {
        Ok(v) => v,
        Err(e) => return Err(e),
    };
    if removed.len() == 0 && added.len() == 0 {
        return Ok(false);
    }
    let ghost d = g.edges[edge.raw as int].destinations;
    proof {
        lemma_live_canonical(g, edge.raw as int);
    }
    let mut i: usize = 0;
    while i < removed.len()
        invariant
            i <= removed@.len(),
            graph.wf(),
            graph@ == g,
            g.edge_alive(edge.raw as int),
            d == g.edges[edge.raw as int].destinations,
            !(rm.len() == 0 && ad.len() == 0),
            rm == raw_ids(removed@),
            ad == raw_ids(added@),
            raw_ids(destinations@) == d,
            first_missing(d, rm, 0) == first_missing(d, rm, i as int),
        decreases removed@.len() - i,
    {
        if !contains_id(destinations.as_slice(), removed[i].raw) {
            return Err(AsmError::MissingDestination { edge: edge.raw, node: removed[i].raw });
        }
        i = i + 1;
    }
    let mut j: usize = 0;
    while j < added.len()
        invariant
            j <= added@.len(),
            graph.wf(),
            graph@ == g,
            old(graph)@ == g,
            g.edge_alive(edge.raw as int),
            d == g.edges[edge.raw as int].destinations,
            !(rm.len() == 0 && ad.len() == 0),
            first_missing(d, rm, 0) is None,
            rm == raw_ids(removed@),
            ad == raw_ids(added@),
            g.first_unknown(ad, 0) == g.first_unknown(ad, j as int),
        decreases added@.len() - j,
    {
        if !graph.node_is_live(added[j].raw) {
            assert(ad[j as int] == added@[j as int].raw);
            return Err(AsmError::UnknownNode { node: added[j].raw });
        }
        j = j + 1;
    }
    let mut kept: Vec<NodeId> = Vec::new();
    let mut k: usize = 0;
    while k < destinations.len()
        invariant
            k <= destinations@.len(),
            rm == raw_ids(removed@),
            raw_ids(destinations@) == d,
            raw_ids(kept@) == without(d.take(k as int), rm),
        decreases destinations@.len() - k,
    {
        proof {
            assert(d.take(k + 1).drop_last() =~= d.take(k as int));
            assert(d.take(k + 1).last() == d[k as int]);
        }
        if !contains_id(removed, destinations[k].raw) {
            kept.push(destinations[k]);
            proof {
                assert(raw_ids(kept@) =~= without(d.take(k as int), rm).push(d[k as int]));
            }
        }
        k = k + 1;
    }
    proof {
        assert(d.take(d.len() as int) =~= d);
    }
    let mut m: usize = 0;
    while m < added.len()
        invariant
            m <= added@.len(),
            ad == raw_ids(added@),
            raw_ids(kept@) == without(d, rm) + ad.take(m as int),
        decreases added@.len() - m,
    {
        let ghost before = kept@;
        kept.push(added[m]);
        proof {
            assert(raw_ids(kept@) =~= raw_ids(before).push(added@[m as int].raw));
            assert(ad[m as int] == added@[m as int].raw);
            assert(ad.take(m + 1) =~= ad.take(m as int).push(ad[m as int]));
            assert(raw_ids(kept@) =~= without(d, rm) + ad.take(m + 1));
        }
        m = m + 1;
    }
    proof {
        assert(ad.take(ad.len() as int) =~= ad);
    }
    let new_destinations = canonicalize_nodes(kept.as_slice());
    if new_destinations.len() == 0 {
        return Err(AsmError::EmptyDestinations);
    }
    let current = canonicalize_nodes(destinations.as_slice());
    if vec_eq_raw(&new_destinations, &current) {
        return Ok(false);
    }
    let ids = to_node_ids(&new_destinations);
    proof {
        lemma_canonical_of(new_destinations@, new_destinations@);
    }
    match graph.overwrite_edge(edge, sources.as_slice(), ids.as_slice()) {
        Ok(_) => Ok(true),
        Err(e) => Err(e),
    }
}

/// Retargets a subset of destinations for a given edge and reports the
/// resulting canonical hash. A failed move leaves the graph unchanged.
pub fn rewire_retarget(graph: &mut HypergraphImpl, edge: EdgeId, removed: &[NodeId], added: &[NodeId]) -> (r: Result<RewireOutcome, AsmError>)
    requires
        old(graph).wf(),
    ensures
        final(graph).wf(),
        match r {
            Ok(o) => retarget_outcome(old(graph)@, edge.raw, raw_ids(removed@), raw_ids(added@))
                == Ok::<(bool, GraphView), AsmError>((o.changed, final(graph)@))
                && o.hash@ == canonical_hash_of(final(graph)@),
            Err(e) => retarget_outcome(old(graph)@, edge.raw, raw_ids(removed@), raw_ids(added@))
                == Err::<(bool, GraphView), AsmError>(e) && final(graph)@ == old(graph)@,
        },
{
    let changed = match retarget_impl(graph, edge, removed, added) {
        Ok(c) => c,
        Err(e) => return Err(e),
    };
    let hash = match canonical_hash(graph) {
        Ok(h) => h,
        Err(e) => return Err(e),
    };
    Ok(RewireOutcome { changed, hash })
}

/// Reports what [`rewire_retarget`] would do, on a copy of the graph.
pub fn rewire_retarget_dry_run(graph: &HypergraphImpl, edge: EdgeId, removed: &[NodeId], added: &[NodeId]) -> (r: RewireDryRun)
    requires
        graph.wf(),
    ensures
        dry_run_of(retarget_outcome(graph@, edge.raw, raw_ids(removed@), raw_ids(added@)), r),
{
    let mut trial = graph.duplicate();
    match retarget_impl(&mut trial, edge, removed, added) {
        Ok(changed) => {
            let hash_preview = if changed {
                match canonical_hash(&trial) {
                    Ok(h) => Some(h),
                    Err(_) => None,
                }
            } else {
                None
            };
            RewireDryRun::Valid { hash_preview }
        },
        Err(err) => RewireDryRun::Invalid(err),
    }
}


/// `n` is a live node with the smallest in-degree, and the smallest id among
/// live nodes of that in-degree.
pub open spec fn is_lightest(g: GraphView, n: u64) -> bool {
    &&& g.node_alive(n)
    &&& forall|m: u64| #[trigger] g.node_alive(m) ==> g.in_degree(n) < g.in_degree(m) || (g.in_degree(n)
        == g.in_degree(m) && n <= m)
}

/// The least loaded live node, if there is a live node.
pub open spec fn lightest_node(g: GraphView) -> Option<u64> {
    if exists|n: u64| is_lightest(g, n) {
        Some(choose|n: u64| is_lightest(g, n))
    } else {
        None
    }
}

/// Position `i` holds the first entry of `d` with the largest in-degree.
pub open spec fn is_heaviest_at(g: GraphView, d: Seq<u64>, i: int) -> bool {
    &&& 0 <= i < d.len()
    &&& forall|j: int| 0 <= j < d.len() ==> g.in_degree(#[trigger] d[j]) <= g.in_degree(d[i])
    &&& forall|j: int| 0 <= j < i ==> g.in_degree(#[trigger] d[j]) < g.in_degree(d[i])
}

/// The first entry of `d` with the largest in-degree.
pub open spec fn heaviest(g: GraphView, d: Seq<u64>) -> u64 {
    d[choose|i: int| is_heaviest_at(g, d, i)]
}

/// Moving load through hyperedge `e`: its busiest destination is replaced by
/// the least loaded node of the graph, unless that node is already a
/// destination (or there is no live node); the move is checked like a new edge.
pub open spec fn rebalance_outcome(g: GraphView, e: u64) -> Result<(bool, GraphView), AsmError> {
    match lightest_node(g) {
        None => Ok((false, g)),
        Some(t) => if !g.edge_alive(e as int) {
            Err(AsmError::UnknownEdge { edge: e })
        } else {
            let d = g.edges[e as int].destinations;
            if d.contains(t) {
                Ok((false, g))
            } else {
                let w = heaviest(g, d);
                if w == t {
                    Ok((false, g))
                } else {
                    replace_outcome(g, e, g.edges[e as int].sources, canonical_of(without(d, seq![w]).push(t)))
                }
            }
        },
    }
}

/// The outcomes a load-balancing move from `node` may have: the node must be
/// live; without outgoing hyperedges nothing changes; otherwise the move goes
/// through one of its outgoing hyperedges, picked at random.
pub open spec fn possible_balance(g: GraphView, node: u64, o: Result<(bool, GraphView), AsmError>) -> bool {
    if !g.node_alive(node) {
        o == Err::<(bool, GraphView), AsmError>(AsmError::UnknownNode { node })
    } else if g.out_set(node) == Set::<u64>::empty() {
        o == Ok::<(bool, GraphView), AsmError>((false, g))
    } else {
        exists|e: u64| g.out_set(node).contains(e) && o == #[trigger] rebalance_outcome(g, e)
    }
}

/// The least loaded live node, if any.
pub(crate) fn lightest(graph: &HypergraphImpl) -> (r: Option<NodeId>)
    requires
        graph.wf(),
    ensures
        r == match lightest_node(graph@) {
            Some(n) => Some(NodeId { raw: n }),
            None => None::<NodeId>,
        },
{
    let ghost g = graph@;
    let nodes = graph.nodes();
    let mut best: usize = 0;
    let mut best_degree: usize = 0;
    let mut i: usize = 0;
    while i < nodes.len()
        invariant
            graph.wf(),
            graph@ == g,
            i <= nodes@.len(),
            strictly_sorted(raw_ids(nodes@)),
            forall|n: u64| raw_ids(nodes@).contains(n) <==> g.node_alive(n),
            i > 0 ==> best < i,
            i > 0 ==> best_degree == g.in_degree(nodes@[best as int].raw),
            forall|k: int|
                0 <= k < i ==> g.in_degree(nodes@[best as int].raw) < g.in_degree(#[trigger] nodes@[k].raw) || (
                g.in_degree(nodes@[best as int].raw) == g.in_degree(nodes@[k].raw) && best <= k),
        decreases nodes@.len() - i,
    {
        proof {
            assert(raw_ids(nodes@)[i as int] == nodes@[i as int].raw);
            assert(raw_ids(nodes@).contains(nodes@[i as int].raw));
        }
        let degree = match graph.in_degree(nodes[i]) {
            Ok(d) => d,
            Err(_) => 0,
        };
        if i == 0 || degree < best_degree {
            best = i;
            best_degree = degree;
        }
        i = i + 1;
    }
    if nodes.len() == 0 {
        proof {
            assert forall|n: u64| !is_lightest(g, n) by {
                if g.node_alive(n) {
                    assert(raw_ids(nodes@).contains(n));
                }
            }
        }
        return None;
    }
    let b = nodes[best];
    proof {
        assert(raw_ids(nodes@)[best as int] == b.raw);
        assert(raw_ids(nodes@).contains(b.raw));
        assert forall|m: u64| #[trigger] g.node_alive(m) implies g.in_degree(b.raw) < g.in_degree(m) || (g.in_degree(b.raw)
            == g.in_degree(m) && b.raw <= m) by {
            assert(raw_ids(nodes@).contains(m));
            let k = choose|k: int| 0 <= k < raw_ids(nodes@).len() && raw_ids(nodes@)[k] == m;
            assert(nodes@[k].raw == m);
            if best < k {
                assert(raw_ids(nodes@)[best as int] < raw_ids(nodes@)[k]);
            }
        }
        assert(is_lightest(g, b.raw));
        let c = choose|n: u64| is_lightest(g, n);
        assert(is_lightest(g, c));
        assert(g.node_alive(c) && g.node_alive(b.raw));
    }
    Some(b)
}

/// The first destination with the largest in-degree.
fn heaviest_destination(graph: &HypergraphImpl, destinations: &Vec<NodeId>, Ghost(e): Ghost<int>) -> (w: NodeId)
    requires
        graph.wf(),
        graph@.edge_alive(e),
        raw_ids(destinations@) == graph@.edges[e].destinations,
    ensures
        w.raw == heaviest(graph@, raw_ids(destinations@)),
{
    let ghost g = graph@;
    let ghost d = raw_ids(destinations@);
    proof {
        graph.lemma_wf_sets_finite();
        lemma_live_canonical(g, e);
    }
    let mut worst: usize = 0;
    let mut worst_degree: usize = 0;
    let mut k: usize = 0;
    while k < destinations.len()
        invariant
            graph.wf(),
            graph@ == g,
            g.well_formed(),
            g.edge_alive(e),
            d == raw_ids(destinations@),
            d == g.edges[e].destinations,
            d.len() > 0,
            k <= d.len(),
            worst < d.len(),
            forall|j: int| 0 <= j < k ==> g.in_degree(#[trigger] d[j]) <= worst_degree,
            worst_degree == 0 ==> worst == 0,
            worst_degree > 0 ==> worst < k && worst_degree == g.in_degree(d[worst as int]) && forall|j: int|
                0 <= j < worst ==> g.in_degree(#[trigger] d[j]) < worst_degree,
        decreases d.len() - k,
    {
        proof {
            assert(d[k as int] == destinations@[k as int].raw);
            assert(g.edge_ok(e));
            assert(g.node_alive(d[k as int]));
        }
        let degree = match graph.in_degree(destinations[k]) {
            Ok(v) => v,
            Err(_) => 0,
        };
        if degree > worst_degree {
            worst = k;
            worst_degree = degree;
        }
        k = k + 1;
    }
    proof {
        assert(is_heaviest_at(g, d, worst as int));
        let c = choose|i: int| is_heaviest_at(g, d, i);
        assert(is_heaviest_at(g, d, c));
        if c < worst {
            assert(g.in_degree(d[c]) < g.in_degree(d[worst as int]));
        } else if c > worst {
            assert(g.in_degree(d[worst as int]) < g.in_degree(d[c]));
        }
        assert(d[worst as int] == destinations@[worst as int].raw);
    }
    destinations[worst]
}

/// Replaces the busiest destination of `edge` by the least loaded live node
/// of the graph, unless that node already is a destination. A failed move
/// leaves the graph unchanged.
pub fn rebalance_edge_targets(graph: &mut HypergraphImpl, edge: EdgeId) -> (r: Result<bool, AsmError>)
    requires
        old(graph).wf(),
    ensures
        final(graph).wf(),
        as_outcome(r, final(graph)@) == rebalance_outcome(old(graph)@, edge.raw),
        r is Err ==> final(graph)@ == old(graph)@,
{
    let ghost g = graph@;
    proof {
        graph.lemma_wf_sets_finite();
    }
    let target = match lightest(graph) {
        Some(n) => n,
        None => return Ok(false),
    };
    let destinations = match graph.dst_of(edge) {
        Ok(v) => v,
        Err(e) => return Err(e),
    };
    let ghost d = g.edges[edge.raw as int].destinations;
    proof {
        lemma_live_canonical(g, edge.raw as int);
    }
    if contains_id(destinations.as_slice(), target.raw) {
        return Ok(false);
    }
    let worst = heaviest_destination(graph, &destinations, Ghost(edge.raw as int));
    if worst.raw == target.raw {
        return Ok(false);
    }
    let ghost ws = seq![worst.raw];
    let mut kept: Vec<NodeId> = Vec::new();
    let mut k: usize = 0;
    while k < destinations.len()
        invariant
            k <= destinations@.len(),
            raw_ids(destinations@) == d,
            ws == seq![worst.raw],
            raw_ids(kept@) == without(d.take(k as int), ws),
        decreases destinations@.len() - k,
    {
        proof {
            assert(d.take(k + 1).drop_last() =~= d.take(k as int));
            assert(d.take(k + 1).last() == d[k as int]);
            assert(d[k as int] == destinations@[k as int].raw);
            assert(ws.contains(d[k as int]) <==> d[k as int] == worst.raw) by {
                if d[k as int] == worst.raw {
                    assert(ws[0] == worst.raw);
                }
            }
        }
        if destinations[k].raw != worst.raw {
            let ghost before = kept@;
            kept.push(destinations[k]);
            proof {
                assert(raw_ids(kept@) =~= raw_ids(before).push(destinations@[k as int].raw));
            }
        }
        k = k + 1;
    }
    proof {
        assert(d.take(d.len() as int) =~= d);
    }
    let ghost before = kept@;
    kept.push(target);
    proof {
        assert(raw_ids(kept@) =~= without(d, ws).push(target.raw));
    }
    let sources = match graph.src_of(edge) {
        Ok(v) => v,
        Err(e) => return Err(e),
    };
    match graph.overwrite_edge(edge, sources.as_slice(), kept.as_slice()) {
        Ok(_) => Ok(true),
        Err(e) => Err(e),
    }
}

fn resource_balanced_impl(graph: &mut HypergraphImpl, node: NodeId, rng: &mut StdRng) -> (r: Result<bool, AsmError>)
    requires
        old(graph).wf(),
    ensures
        final(graph).wf(),
        possible_balance(old(graph)@, node.raw, as_outcome(r, final(graph)@)),
        r is Err ==> final(graph)@ == old(graph)@,
{
    let ghost g = graph@;
    if !graph.node_is_live(node.raw) {
        return Err(AsmError::UnknownNode { node: node.raw });
    }
    let outgoing = match graph.outgoing_edges(node) {
        Ok(v) => v,
        Err(e) => return Err(e),
    };
    if outgoing.len() == 0 {
        proof {
            assert(edge_raw_ids(outgoing@).to_set() =~= Set::<u64>::empty());
        }
        return Ok(false);
    }
    let edge = match choose_edge(outgoing.as_slice(), rng) {
        Some(e) => e,
        None => return Ok(false),
    };
    proof {
        let k = choose|k: int| 0 <= k < outgoing@.len() && outgoing@[k] == edge;
        assert(edge_raw_ids(outgoing@)[k] == edge.raw);
        assert(edge_raw_ids(outgoing@).to_set().contains(edge.raw));
        assert(g.out_set(node.raw).contains(edge.raw));
        assert(g.out_set(node.raw) != Set::<u64>::empty());
    }
    rebalance_edge_targets(graph, edge)
}

/// Performs a degree-aware local rewiring through a randomly chosen outgoing
/// hyperedge of `node` and reports the resulting canonical hash. A failed
/// move leaves the graph unchanged.
pub fn rewire_resource_balanced(graph: &mut HypergraphImpl, node: NodeId, rng: &mut StdRng) -> (r: Result<RewireOutcome, AsmError>)
    requires
        old(graph).wf(),
    ensures
        final(graph).wf(),
        match r {
            Ok(o) => possible_balance(old(graph)@, node.raw, Ok((o.changed, final(graph)@)))
                && o.hash@ == canonical_hash_of(final(graph)@),
            Err(e) => possible_balance(old(graph)@, node.raw, Err(e)) && final(graph)@ == old(graph)@,
        },
{
    let changed = match resource_balanced_impl(graph, node, rng) {
        Ok(c) => c,
        Err(e) => return Err(e),
    };
    let hash = match canonical_hash(graph) {
        Ok(h) => h,
        Err(e) => return Err(e),
    };
    Ok(RewireOutcome { changed, hash })
}

/// Reports what [`rewire_resource_balanced`] would do, on a copy of the graph
/// and of the generator: the caller's generator is not advanced.
pub fn rewire_resource_balanced_dry_run(graph: &HypergraphImpl, node: NodeId, rng: &mut StdRng) -> (r: RewireDryRun)
    requires
        graph.wf(),
    ensures
        exists|o: Result<(bool, GraphView), AsmError>| #[trigger] possible_balance(graph@, node.raw, o) && dry_run_of(o, r),
        *final(rng) == *old(rng),
{
    let mut trial = graph.duplicate();
    let mut rng_copy = clone_rng(rng);
    let result = resource_balanced_impl(&mut trial, node, &mut rng_copy);
    let ghost o = as_outcome(result, trial@);
    let r = match result {
        Ok(changed) => {
            let hash_preview = if changed {
                match canonical_hash(&trial) {
                    Ok(h) => Some(h),
                    Err(_) => None,
                }
            } else {
                None
            };
            RewireDryRun::Valid { hash_preview }
        },
        Err(err) => RewireDryRun::Invalid(err),
    };
    proof {
        assert(possible_balance(graph@, node.raw, o) && dry_run_of(o, r));
    }
    r
}

} // verus!
