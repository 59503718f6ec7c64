//! Random generators of bounded-degree, uniform, causal hypergraphs.
use vstd::prelude::*;
use vstd::set_lib::{lemma_len_subset, lemma_set_disjoint_lens};
use crate::errors::AsmError;
use crate::flags::{HypergraphConfig, KUniformity};
use crate::graph_spec::GraphView;
use crate::ids::{EdgeId, NodeId, raw_ids, strictly_sorted, canonical_of, canonicalize_nodes, to_node_ids, lemma_sorted_len, lemma_canonical_of};
use crate::hypergraph::{HypergraphImpl, detached, edge_raw_ids};
use crate::rewire::{is_lightest, lightest_node, lightest, without, contains_id, lemma_live_canonical, replace_outcome};
use crate::rng::choose_edge;
use crate::rng::shuffle_nodes;
use rand::rngs::StdRng;

verus! {

/// The errors a generator shrugs off and retries after: a duplicate edge, a
/// cycle in causal mode, or a full degree cap.
pub open spec fn soft_error(e: AsmError) -> bool {
    ||| e is DuplicateEdge
    ||| e is WouldCreateCycle
    ||| e is OutDegreeCap
    ||| e is InDegreeCap
}

/// Whether the generators retry after this error.
pub fn is_soft_error(error: &AsmError) -> (b: bool)
    ensures
        b == soft_error(*error),
{
    match error {
        AsmError::DuplicateEdge => true,
        AsmError::WouldCreateCycle => true,
        AsmError::OutDegreeCap { .. } => true,
        AsmError::InDegreeCap { .. } => true,
        _ => false,
    }
}

/// Sources and destinations per hyperedge for a uniformity `k`: `k` (at least
/// two) split in halves, the destinations taking the odd one.
pub open spec fn partition_of(k: usize) -> (usize, usize) {
    let total = if k < 2 {
        2
    } else {
        k
    };
    let sources = total / 2;
    let destinations = (total - sources) as usize;
    (
        if sources < 1 {
            1
        } else {
            sources
        },
        if destinations < 1 {
            1
        } else {
            destinations
        },
    )
}

/// Splits `k_uniform` endpoints into sources and destinations.
pub fn balanced_partition(k_uniform: usize) -> (r: (usize, usize))
    ensures
        r == partition_of(k_uniform),
        r.0 >= 1,
        r.1 >= 1,
        r.0 + r.1 == if k_uniform < 2 {
            2
        } else {
            k_uniform
        },
{
    let total = if k_uniform < 2 {
        2
    } else {
        k_uniform
    };
    let sources = total / 2;
    let destinations = total - sources;
    (
        if sources < 1 {
            1
        } else {
            sources
        },
        if destinations < 1 {
            1
        } else {
            destinations
        },
    )
}

/// Whether two sorted id lists share an id.
pub fn overlaps(a: &[NodeId], b: &[NodeId]) -> (r: bool)
    requires
        strictly_sorted(raw_ids(a@)),
        strictly_sorted(raw_ids(b@)),
    ensures
        r == exists|x: u64| raw_ids(a@).contains(x) && raw_ids(b@).contains(x),
{
    let ghost sa = raw_ids(a@);
    let ghost sb = raw_ids(b@);
    let mut ia: usize = 0;
    let mut ib: usize = 0;
    while ia < a.len() && ib < b.len()
        invariant
            ia <= a@.len(),
            ib <= b@.len(),
            sa == raw_ids(a@),
            sb == raw_ids(b@),
            strictly_sorted(sa),
            strictly_sorted(sb),
            forall|p: int, q: int|
                0 <= p < sa.len() && 0 <= q < sb.len() && (p < ia || q < ib) ==> #[trigger] sa[p]
                    != #[trigger] sb[q],
        decreases a@.len() + b@.len() - ia - ib,
    {
        let x = a[ia].raw;
        let y = b[ib].raw;
        proof {
            assert(sa[ia as int] == x && sb[ib as int] == y);
        }
        if x < y {
            proof {
                assert forall|q: int| 0 <= q < sb.len() implies sa[ia as int] != #[trigger] sb[q] by {
                    if q >= ib {
                        if q > ib {
                            assert(sb[ib as int] < sb[q]);
                        }
                    }
                }
            }
            ia = ia + 1;
        } else if y < x {
            proof {
                assert forall|p: int| 0 <= p < sa.len() implies #[trigger] sa[p] != sb[ib as int] by {
                    if p > ia {
                        assert(sa[ia as int] < sa[p]);
                    }
                }
            }
            ib = ib + 1;
        } else {
            proof {
                assert(sa.contains(x) && sb.contains(x));
            }
            return true;
        }
    }
    proof {
        assert forall|x: u64| !(sa.contains(x) && sb.contains(x)) by {
            if sa.contains(x) && sb.contains(x) {
                let p = choose|p: int| 0 <= p < sa.len() && sa[p] == x;
                let q = choose|q: int| 0 <= q < sb.len() && sb[q] == x;
                assert(sa[p] != sb[q]);
            }
        }
    }
    false
}

/// A list without repeated ids keeps that property under any reordering.
proof fn lemma_permutation_no_duplicates(s: Seq<NodeId>, t: Seq<NodeId>)
    requires
        s.to_multiset() == t.to_multiset(),
        t.no_duplicates(),
    ensures
        s.no_duplicates(),
        forall|x: NodeId| s.contains(x) <==> t.contains(x),
{
    broadcast use vstd::seq_lib::to_multiset_contains;
    t.lemma_multiset_has_no_duplicates();
    s.lemma_multiset_has_no_duplicates_conv();
    assert forall|x: NodeId| s.contains(x) <==> t.contains(x) by {
        vstd::seq_lib::to_multiset_contains(s, x);
        vstd::seq_lib::to_multiset_contains(t, x);
    }
}

/// The id of a node determines it.
proof fn lemma_raw_ids_injective(s: Seq<NodeId>)
    ensures
        s.no_duplicates() <==> raw_ids(s).no_duplicates(),
        forall|x: u64| raw_ids(s).contains(x) <==> s.contains(NodeId { raw: x }),
{
    s.lemma_no_duplicates_injective(|n: NodeId| n.raw);
    assert forall|x: u64| raw_ids(s).contains(x) <==> s.contains(NodeId { raw: x }) by {
        if raw_ids(s).contains(x) {
            let k = choose|k: int| 0 <= k < raw_ids(s).len() && raw_ids(s)[k] == x;
            assert(s[k] == NodeId { raw: x });
        }
        if s.contains(NodeId { raw: x }) {
            let k = choose|k: int| 0 <= k < s.len() && s[k] == NodeId { raw: x };
            assert(raw_ids(s)[k] == x);
        }
    }
}

/// A random choice of `count` ids from `nodes` (all of them when there are
/// fewer), returned in ascending order.
fn sample_subset(nodes: &[NodeId], count: usize, rng: &mut StdRng) -> (r: Vec<NodeId>)
    ensures
        strictly_sorted(raw_ids(r@)),
        forall|x: u64| raw_ids(r@).contains(x) ==> raw_ids(nodes@).contains(x),
        raw_ids(nodes@).no_duplicates() ==> r@.len() == if count < nodes@.len() {
            count as int
        } else {
            nodes@.len() as int
        },
{
    let mut buffer: Vec<NodeId> = Vec::new();
    let mut i: usize = 0;
    while i < nodes.len()
        invariant
            i <= nodes@.len(),
            buffer@ == nodes@.take(i as int),
        decreases nodes@.len() - i,
    {
        buffer.push(nodes[i]);
        proof {
            assert(nodes@.take(i + 1) =~= nodes@.take(i as int).push(nodes@[i as int]));
        }
        i = i + 1;
    }
    proof {
        assert(nodes@.take(nodes@.len() as int) =~= nodes@);
    }
    shuffle_nodes(&mut buffer, rng);
    let ghost shuffled = buffer@;
    let keep = if count < buffer.len() {
        count
    } else {
        buffer.len()
    };
    buffer.truncate(keep);
    let sorted = canonicalize_nodes(buffer.as_slice());
    let r = to_node_ids(&sorted);
    proof {
        assert(buffer@ =~= shuffled.take(keep as int));
        lemma_raw_ids_injective(nodes@);
        lemma_raw_ids_injective(buffer@);
        lemma_raw_ids_injective(shuffled);
        assert forall|x: u64| raw_ids(r@).contains(x) implies raw_ids(nodes@).contains(x) by {
            assert(sorted@.to_set().contains(x));
            assert(raw_ids(buffer@).to_set().contains(x));
            assert(buffer@.contains(NodeId { raw: x }));
            let k = choose|k: int| 0 <= k < buffer@.len() && buffer@[k] == NodeId { raw: x };
            assert(shuffled[k] == NodeId { raw: x });
            assert(shuffled.contains(NodeId { raw: x }));
            assert(shuffled.to_multiset().count(NodeId { raw: x }) > 0) by {
                broadcast use vstd::seq_lib::to_multiset_contains;
            }
            assert(nodes@.to_multiset().count(NodeId { raw: x }) > 0);
            assert(nodes@.contains(NodeId { raw: x })) by {
                broadcast use vstd::seq_lib::to_multiset_contains;
            }
        }
        if raw_ids(nodes@).no_duplicates() {
            lemma_permutation_no_duplicates(shuffled, nodes@);
            assert(buffer@.no_duplicates()) by {
                assert forall|p: int, q: int| 0 <= p < buffer@.len() && 0 <= q < buffer@.len() && p != q implies buffer@[p]
                    != buffer@[q] by {
                    assert(buffer@[p] == shuffled[p] && buffer@[q] == shuffled[q]);
                }
            }
            raw_ids(buffer@).unique_seq_to_set();
            lemma_sorted_len(sorted@);
        }
    }
    r
}


/// The ids below `n`.
pub open spec fn ids_below(n: nat) -> Set<u64> {
    Set::new(|x: u64| x < n)
}

proof fn lemma_ids_below_len(n: nat)
    requires
        n <= u64::MAX,
    ensures
        ids_below(n).finite(),
        ids_below(n).len() == n,
    decreases n,
{
    if n == 0 {
        assert(ids_below(0) =~= Set::<u64>::empty());
    } else {
        lemma_ids_below_len((n - 1) as nat);
        assert(ids_below(n) =~= ids_below((n - 1) as nat).insert((n - 1) as u64));
    }
}

/// Two disjoint sorted lists of ids below `n` hold at most `n` ids together.
proof fn lemma_disjoint_fit(a: Seq<u64>, b: Seq<u64>, n: nat)
    requires
        n <= u64::MAX,
        strictly_sorted(a),
        strictly_sorted(b),
        forall|x: u64| a.contains(x) ==> x < n,
        forall|x: u64| b.contains(x) ==> x < n,
        !exists|x: u64| a.contains(x) && b.contains(x),
    ensures
        a.len() + b.len() <= n,
{
    lemma_sorted_len(a);
    lemma_sorted_len(b);
    lemma_set_disjoint_lens(a.to_set(), b.to_set());
    assert(a.to_set().disjoint(b.to_set()));
    lemma_ids_below_len(n);
    lemma_len_subset(a.to_set() + b.to_set(), ids_below(n));
}

proof fn lemma_cap_violation_kind(g: GraphView, nodes: Seq<u64>, cap: usize, outbound: bool, i: int)
    requires
        forall|k: int| 0 <= k < nodes.len() ==> g.node_alive(#[trigger] nodes[k]),
    ensures
        match g.first_cap_violation(nodes, cap, outbound, i) {
            None => true,
            Some(e) => if outbound {
                e is OutDegreeCap
            } else {
                e is InDegreeCap
            },
        },
    decreases nodes.len() - i,
{
    if 0 <= i < nodes.len() {
        lemma_cap_violation_kind(g, nodes, cap, outbound, i + 1);
    }
}

proof fn lemma_first_unknown_none(g: GraphView, nodes: Seq<u64>, i: int)
    requires
        forall|k: int| 0 <= k < nodes.len() ==> g.node_alive(#[trigger] nodes[k]),
    ensures
        g.first_unknown(nodes, i) is None,
    decreases nodes.len() - i,
{
    if 0 <= i < nodes.len() {
        lemma_first_unknown_none(g, nodes, i + 1);
    }
}

/// Attaching live endpoints with counts the uniformity rule accepts can
/// only fail softly.
pub proof fn lemma_attach_soft(g: GraphView, s: Seq<u64>, d: Seq<u64>)
    requires
        g.config.arity_ok(s.len() as int, d.len() as int),
        forall|k: int| 0 <= k < s.len() ==> g.node_alive(#[trigger] s[k]),
        forall|k: int| 0 <= k < d.len() ==> g.node_alive(#[trigger] d[k]),
    ensures
        match g.attach_error(s, d) {
            None => true,
            Some(e) => soft_error(e),
        },
{
    match g.config.max_out_degree {
        Some(cap) => lemma_cap_violation_kind(g, s, cap, true, 0),
        None => {},
    }
    match g.config.max_in_degree {
        Some(cap) => lemma_cap_violation_kind(g, d, cap, false, 0),
        None => {},
    }
    lemma_first_unknown_none(g, s, 0);
    lemma_first_unknown_none(g, d, 0);
}

/// The degree cap a generator uses: the requested one, at least one.
pub open spec fn bounded_cap(degree_max: usize) -> usize {
    if degree_max < 1 {
        1
    } else {
        degree_max
    }
}

/// The configuration of a generated graph: the default one with both degree
/// caps at `bounded_cap(degree_max)` and balanced uniformity split from `k_uniform`.
pub open spec fn bounded_config(degree_max: usize, k_uniform: usize) -> HypergraphConfig {
    HypergraphConfig {
        causal_mode: HypergraphConfig::spec_default().causal_mode,
        max_in_degree: Some(bounded_cap(degree_max)),
        max_out_degree: Some(bounded_cap(degree_max)),
        k_uniform: Some(
            KUniformity::Balanced {
                sources: partition_of(k_uniform).0,
                destinations: partition_of(k_uniform).1,
            },
        ),
        schema_version: HypergraphConfig::spec_default().schema_version,
    }
}

/// `n` live node slots.
pub open spec fn all_live(n: nat) -> Seq<bool> {
    Seq::new(n, |i: int| true)
}

/// The ids `0 .. n`.
pub open spec fn first_ids(n: nat) -> Seq<u64> {
    Seq::new(n, |k: int| k as u64)
}

/// Whether two id lists share an id.
pub open spec fn share_id(a: Seq<u64>, b: Seq<u64>) -> bool {
    exists|x: u64| a.contains(x) && b.contains(x)
}

/// One attempt of the bounded-degree generator with the drawn id sets `s`
/// and `d`, after `stagnation` soft failures in a row, in a generator of
/// `n_nodes` nodes: overlapping sets are skipped; otherwise the hyperedge is
/// added as `add_hyperedge` adds it, which resets the count; a soft failure
/// adds one to the count and stops the generator once it exceeds
/// `4 * n_nodes`; any other failure is the generator's error. The result is
/// the graph, the count and whether the generator stops.
pub open spec fn attempt_outcome(g: GraphView, s: Seq<u64>, d: Seq<u64>, stagnation: int, n_nodes: int) -> Result<(GraphView, int, bool), AsmError> {
    if share_id(s, d) {
        Ok((g, stagnation, false))
    } else {
        match g.add_edge_error(s, d) {
            None => Ok((g.with_edge(canonical_of(s), canonical_of(d)), 0, false)),
            Some(e) => if soft_error(e) {
                Ok((g, stagnation + 1, stagnation + 1 > 4 * n_nodes))
            } else {
                Err(e)
            },
        }
    }
}

/// The generator's state after the attempts with the id sets `draws`, from
/// graph `g` with no failure yet; once an attempt stops the generator, later
/// draws change nothing.
pub open spec fn attempts_run(g: GraphView, draws: Seq<(Seq<u64>, Seq<u64>)>, n_nodes: int) -> Result<(GraphView, int, bool), AsmError>
    decreases draws.len(),
{
    if draws.len() == 0 {
        Ok((g, 0, false))
    } else {
        match attempts_run(g, draws.drop_last(), n_nodes) {
            Ok((h, st, false)) => attempt_outcome(h, draws.last().0, draws.last().1, st, n_nodes),
            other => other,
        }
    }
}

/// How many ids a draw of `count` among `n` nodes holds.
pub open spec fn drawn_size(count: usize, n: nat) -> int {
    if count < n {
        count as int
    } else {
        n as int
    }
}

/// Draws the generator can make among `n` nodes: each a pair of ascending id
/// sets of the balanced sizes (or all nodes, when there are fewer).
pub open spec fn fair_draws(draws: Seq<(Seq<u64>, Seq<u64>)>, n: nat, k_uniform: usize) -> bool {
    forall|i: int|
        0 <= i < draws.len() ==> {
            let (s, d) = #[trigger] draws[i];
            &&& strictly_sorted(s)
            &&& strictly_sorted(d)
            &&& s.len() == drawn_size(partition_of(k_uniform).0, n)
            &&& d.len() == drawn_size(partition_of(k_uniform).1, n)
            &&& forall|x: u64| s.contains(x) ==> x < n
            &&& forall|x: u64| d.contains(x) ==> x < n
        }
}

/// The graph a bounded-degree generator starts from: `n` live nodes and no
/// hyperedge.
pub open spec fn start_graph(n: nat, degree_max: usize, k_uniform: usize) -> GraphView {
    GraphView { config: bounded_config(degree_max, k_uniform), nodes: all_live(n), edges: Seq::empty() }
}

/// The number of attempts: `n_nodes * max(degree_max, 1) * 16`, at most
/// `usize::MAX`.
pub open spec fn attempt_budget(n_nodes: usize, degree_max: usize) -> int {
    let b = n_nodes * (bounded_cap(degree_max) * 16);
    if b > usize::MAX {
        usize::MAX as int
    } else {
        b
    }
}

/// `g` is a graph the bounded-degree generator returns for some draws: the
/// attempts with them lead from the start graph to `g`, and after them the
/// generator stopped, used up its attempts, or has no hyperedge slot left
/// (a table no memory can hold).
pub open spec fn bounded_generation(n_nodes: usize, degree_max: usize, k_uniform: usize, g: GraphView) -> bool {
    exists|draws: Seq<(Seq<u64>, Seq<u64>)>|
        #[trigger] fair_draws(draws, n_nodes as nat, k_uniform) && draws.len() <= attempt_budget(n_nodes, degree_max)
            && match attempts_run(start_graph(n_nodes as nat, degree_max, k_uniform), draws, n_nodes as int) {
            Ok((h, _, stopped)) => h == g && (stopped || draws.len() == attempt_budget(n_nodes, degree_max) || g.edges.len()
                + 2 >= usize::MAX),
            Err(_) => false,
        }
}

/// One attempt of the bounded-degree generator on drawn ascending id lists:
/// see [`attempt_outcome`]. Returns the new count of soft failures in a row
/// and whether the generator stops.
pub fn bounded_degree_attempt(
    graph: &mut HypergraphImpl,
    sources: &[NodeId],
    destinations: &[NodeId],
    stagnation: usize,
    n_nodes: usize,
) -> (r: Result<(usize, bool), AsmError>)
    requires
        old(graph).wf(),
        old(graph)@.edges.len() + 2 < usize::MAX,
        stagnation < usize::MAX,
        strictly_sorted(raw_ids(sources@)),
        strictly_sorted(raw_ids(destinations@)),
    ensures
        final(graph).wf(),
        match attempt_outcome(old(graph)@, raw_ids(sources@), raw_ids(destinations@), stagnation as int, n_nodes as int) {
            Ok((g, st, stop)) => final(graph)@ == g && r == Ok::<(usize, bool), AsmError>((st as usize, stop)),
            Err(e) => final(graph)@ == old(graph)@ && r == Err::<(usize, bool), AsmError>(e),
        },
{
    if overlaps(sources, destinations) {
        return Ok((stagnation, false));
    }
    match graph.add_hyperedge(sources, destinations) {
        Ok(_) => Ok((0, false)),
        Err(err) => {
            if is_soft_error(&err) {
                let st = stagnation + 1;
                let stop = n_nodes <= usize::MAX / 4 && st > n_nodes * 4;
                Ok((st, stop))
            } else {
                Err(err)
            }
        },
    }
}

/// Generates a bounded-degree hypergraph with `n_nodes` nodes: up to
/// `n_nodes * max(degree_max, 1) * 16` attempts (at most `usize::MAX`) to add
/// a hyperedge between random disjoint node sets of the balanced sizes,
/// giving up after more than `4 * n_nodes` soft failures in a row. Fails only
/// without nodes. Every hyperedge has disjoint sources and destinations.
pub fn gen_bounded_degree(n_nodes: usize, degree_max: usize, k_uniform: usize, rng: &mut StdRng) -> (r: Result<HypergraphImpl, AsmError>)
    requires
        bounded_cap(degree_max) * 16 <= usize::MAX,
        n_nodes + 1 < usize::MAX,
    ensures
        match r {
            Ok(g) => n_nodes > 0 && g.wf() && g@.config == bounded_config(degree_max, k_uniform)
                && g@.nodes == all_live(n_nodes as nat)
                && (forall|e: int| 0 <= e < g@.edges.len() ==> #[trigger] g@.edges[e].alive)
                && (forall|e: int| #[trigger] g@.edge_alive(e) ==> !share_id(g@.edges[e].sources, g@.edges[e].destinations))
                && g@.edges.len() <= attempt_budget(n_nodes, degree_max)
                && bounded_generation(n_nodes, degree_max, k_uniform, g@),
            Err(e) => n_nodes == 0 && e == AsmError::EmptyGraph,
        },
{
    if n_nodes == 0 {
        return Err(AsmError::EmptyGraph);
    }
    let (sources_per_edge, destinations_per_edge) = balanced_partition(k_uniform);
    let cap = if degree_max < 1 {
        1
    } else {
        degree_max
    };
    let base = HypergraphConfig::default();
    let config = HypergraphConfig {
        causal_mode: base.causal_mode,
        max_in_degree: Some(cap),
        max_out_degree: Some(cap),
        k_uniform: Some(KUniformity::Balanced { sources: sources_per_edge, destinations: destinations_per_edge }),
        schema_version: base.schema_version,
    };
    let mut graph = HypergraphImpl::new(config);
    let mut nodes: Vec<NodeId> = Vec::new();
    let mut i: usize = 0;
    while i < n_nodes
        invariant
            i <= n_nodes,
            n_nodes + 1 < usize::MAX,
            graph.wf(),
            graph@.config == config,
            graph@.nodes == all_live(i as nat),
            graph@.edges.len() == 0,
            raw_ids(nodes@) == first_ids(i as nat),
        decreases n_nodes - i,
    {
        let id = match graph.add_node() {
            Ok(id) => id,
            Err(e) => return Err(e),
        };
        let ghost before = nodes@;
        nodes.push(id);
        proof {
            assert(raw_ids(nodes@) =~= raw_ids(before).push(id.raw));
            assert(graph@.nodes =~= all_live((i + 1) as nat));
            assert(raw_ids(nodes@) =~= first_ids((i + 1) as nat));
        }
        i = i + 1;
    }
    let max_attempts = match n_nodes.checked_mul(cap * 16) {
        Some(v) => v,
        None => usize::MAX,
    };
    let ghost n = n_nodes as nat;
    proof {
        assert(strictly_sorted(first_ids(n)));
        lemma_sorted_len(first_ids(n));
        assert(graph@ == start_graph(n, degree_max, k_uniform)) by {
            assert(graph@.edges =~= Seq::<crate::graph_spec::EdgeView>::empty());
        }
        assert(max_attempts == attempt_budget(n_nodes, degree_max));
    }
    let ghost start = graph@;
    let ghost mut draws: Seq<(Seq<u64>, Seq<u64>)> = Seq::empty();
    let mut stagnation: usize = 0;
    let mut stopped = false;
    let mut room = graph.edge_slot_count() < usize::MAX - 2;
    let mut attempt: usize = 0;
    while attempt < max_attempts && !stopped && room
        invariant
            stagnation <= attempt,
            attempt <= max_attempts,
            max_attempts == attempt_budget(n_nodes, degree_max),
            n == n_nodes,
            n_nodes > 0,
            sources_per_edge >= 1,
            destinations_per_edge >= 1,
            (sources_per_edge, destinations_per_edge) == partition_of(k_uniform),
            graph.wf(),
            graph@.config == config,
            config == bounded_config(degree_max, k_uniform),
            config.k_uniform == Some(KUniformity::Balanced { sources: sources_per_edge, destinations: destinations_per_edge }),
            graph@.nodes == all_live(n),
            graph@.edges.len() <= attempt,
            room == (graph@.edges.len() < usize::MAX - 2),
            forall|e: int| 0 <= e < graph@.edges.len() ==> #[trigger] graph@.edges[e].alive,
            forall|e: int| #[trigger] graph@.edge_alive(e) ==> !share_id(graph@.edges[e].sources, graph@.edges[e].destinations),
            raw_ids(nodes@) == first_ids(n),
            raw_ids(nodes@).no_duplicates(),
            nodes@.len() == n,
            start == start_graph(n, degree_max, k_uniform),
            draws.len() == attempt,
            fair_draws(draws, n, k_uniform),
            attempts_run(start, draws, n as int) == Ok::<(GraphView, int, bool), AsmError>((graph@, stagnation as int, stopped)),
        decreases max_attempts - attempt,
    {
        let sources = sample_subset(nodes.as_slice(), sources_per_edge, rng);
        let destinations = sample_subset(nodes.as_slice(), destinations_per_edge, rng);
        let ghost g = graph@;
        let ghost rs = raw_ids(sources@);
        let ghost rd = raw_ids(destinations@);
        let ghost old_draws = draws;
        proof {
            assert forall|x: u64| rs.contains(x) implies x < n by {
                assert(first_ids(n).contains(x));
                let k = choose|k: int| 0 <= k < n && first_ids(n)[k] == x;
            }
            assert forall|x: u64| rd.contains(x) implies x < n by {
                assert(first_ids(n).contains(x));
                let k = choose|k: int| 0 <= k < n && first_ids(n)[k] == x;
            }
            draws = draws.push((rs, rd));
            assert(draws.drop_last() =~= old_draws);
            assert forall|i: int| 0 <= i < draws.len() implies {
                let (s, d) = #[trigger] draws[i];
                &&& strictly_sorted(s)
                &&& strictly_sorted(d)
                &&& s.len() == drawn_size(partition_of(k_uniform).0, n)
                &&& d.len() == drawn_size(partition_of(k_uniform).1, n)
                &&& forall|x: u64| s.contains(x) ==> x < n
                &&& forall|x: u64| d.contains(x) ==> x < n
            } by {
                if i < old_draws.len() {
                    assert(draws[i] == old_draws[i]);
                }
            }
            if !share_id(rs, rd) {
                lemma_disjoint_fit(rs, rd, n);
                assert(rs.len() == sources_per_edge && rd.len() == destinations_per_edge);
                assert forall|k: int| 0 <= k < rs.len() implies g.node_alive(#[trigger] rs[k]) by {
                    assert(rs.contains(rs[k]));
                }
                assert forall|k: int| 0 <= k < rd.len() implies g.node_alive(#[trigger] rd[k]) by {
                    assert(rd.contains(rd[k]));
                }
                lemma_canonical_of(rs, rs);
                lemma_canonical_of(rd, rd);
                lemma_attach_soft(g, rs, rd);
            }
        }
        match bounded_degree_attempt(&mut graph, sources.as_slice(), destinations.as_slice(), stagnation, n_nodes) {
            Ok((st, stop)) => {
                stagnation = st;
                stopped = stop;
            },
            Err(err) => {
                return Err(err);
            },
        }
        proof {
            if graph@ != g {
                let ne = g.edges.len() as int;
                assert(graph@ == g.with_edge(rs, rd));
                assert forall|e: int| #[trigger] graph@.edge_alive(e) implies !share_id(graph@.edges[e].sources, graph@.edges[e].destinations) by {
                    if e < ne {
                        assert(graph@.edges[e] == g.edges[e]);
                        assert(g.edge_alive(e));
                    }
                }
                assert forall|e: int| 0 <= e < graph@.edges.len() implies #[trigger] graph@.edges[e].alive by {
                    if e < ne {
                        assert(graph@.edges[e] == g.edges[e]);
                    }
                }
            }
        }
        room = graph.edge_slot_count() < usize::MAX - 2;
        attempt = attempt + 1;
    }
    proof {
        assert(draws.len() == attempt);
    }
    Ok(graph)
}

/// `n` is the live node with the largest in-degree, the first (smallest id)
/// among live nodes of that in-degree.
pub open spec fn is_busiest(g: GraphView, n: u64) -> bool {
    &&& g.node_alive(n)
    &&& forall|m: u64| #[trigger] g.node_alive(m) ==> g.in_degree(m) <= g.in_degree(n)
    &&& forall|m: u64| #[trigger] g.node_alive(m) && m < n ==> g.in_degree(m) < g.in_degree(n)
}

/// An in-degree never exceeds the number of hyperedge slots.
proof fn lemma_in_degree_bound(g: GraphView, n: u64)
    requires
        g.edges.len() <= u64::MAX,
    ensures
        g.in_degree(n) <= g.edges.len(),
{
    lemma_ids_below_len(g.edges.len());
    assert(g.in_set(n).subset_of(ids_below(g.edges.len())));
    lemma_len_subset(g.in_set(n), ids_below(g.edges.len()));
}

/// The live node with the largest in-degree (the first such) and that degree.
fn max_in_degree(graph: &HypergraphImpl) -> (r: Result<(NodeId, usize), AsmError>)
    requires
        graph.wf(),
    ensures
        match r {
            Ok((n, d)) => is_busiest(graph@, n.raw) && d == graph@.in_degree(n.raw),
            Err(e) => e == AsmError::NoNodes && forall|m: u64| !graph@.node_alive(m),
        },
{
    let ghost g = graph@;
    let nodes = graph.nodes();
    let mut best: usize = 0;
    let mut best_degree: usize = 0;
    let mut i: usize = 0;
    while i < nodes.len()
        invariant
            graph.wf(),
            graph@ == g,
            i <= nodes@.len(),
            strictly_sorted(raw_ids(nodes@)),
            forall|n: u64| raw_ids(nodes@).contains(n) <==> g.node_alive(n),
            i > 0 ==> best < i,
            i > 0 ==> best_degree == g.in_degree(nodes@[best as int].raw),
            forall|k: int| 0 <= k < i ==> g.in_degree(#[trigger] nodes@[k].raw) <= g.in_degree(nodes@[best as int].raw),
            forall|k: int| 0 <= k < best ==> g.in_degree(#[trigger] nodes@[k].raw) < g.in_degree(nodes@[best as int].raw),
        decreases nodes@.len() - i,
    {
        proof {
            assert(raw_ids(nodes@)[i as int] == nodes@[i as int].raw);
            assert(raw_ids(nodes@).contains(nodes@[i as int].raw));
        }
        let degree = match graph.in_degree(nodes[i]) {
            Ok(d) => d,
            Err(_) => 0,
        };
        if i == 0 || degree > best_degree {
            best = i;
            best_degree = degree;
        }
        i = i + 1;
    }
    if nodes.len() == 0 {
        proof {
            assert forall|m: u64| !g.node_alive(m) by {
                if g.node_alive(m) {
                    assert(raw_ids(nodes@).contains(m));
                }
            }
        }
        return Err(AsmError::NoNodes);
    }
    let b = nodes[best];
    proof {
        assert(raw_ids(nodes@)[best as int] == b.raw);
        assert(raw_ids(nodes@).contains(b.raw));
        assert forall|m: u64| #[trigger] g.node_alive(m) implies g.in_degree(m) <= g.in_degree(b.raw) && (m < b.raw ==> g.in_degree(m) < g.in_degree(b.raw)) by {
            assert(raw_ids(nodes@).contains(m));
            let k = choose|k: int| 0 <= k < raw_ids(nodes@).len() && raw_ids(nodes@)[k] == m;
            assert(nodes@[k].raw == m);
            if m < b.raw && k >= best {
                if k > best {
                    assert(raw_ids(nodes@)[best as int] < raw_ids(nodes@)[k]);
                }
            }
        }
    }
    Ok((b, best_degree))
}

/// The live node with the smallest in-degree (the first such) and that degree.
fn min_in_degree(graph: &HypergraphImpl) -> (r: Result<(NodeId, usize), AsmError>)
    requires
        graph.wf(),
    ensures
        match r {
            Ok((n, d)) => is_lightest(graph@, n.raw) && d == graph@.in_degree(n.raw),
            Err(e) => e == AsmError::NoNodes && forall|m: u64| !graph@.node_alive(m),
        },
{
    match lightest(graph) {
        Some(n) => {
            let ghost c = choose|x: u64| is_lightest(graph@, x);
            let d = match graph.in_degree(n) {
                Ok(d) => d,
                Err(_) => 0,
            };
            Ok((n, d))
        },
        None => {
            proof {
                assert forall|m: u64| !graph@.node_alive(m) by {
                    if graph@.node_alive(m) {
                        graph.lemma_wf_sets_finite();
                        lemma_lightest_exists(graph@, m);
                    }
                }
            }
            Err(AsmError::NoNodes)
        },
    }
}

/// A graph with a live node has a least loaded one.
proof fn lemma_lightest_exists(g: GraphView, m: u64)
    requires
        g.node_alive(m),
        g.nodes.len() <= u64::MAX,
    ensures
        exists|n: u64| is_lightest(g, n),
    decreases g.nodes.len() - m,
{
    if forall|k: u64| #[trigger] g.node_alive(k) ==> g.in_degree(m) < g.in_degree(k) || (g.in_degree(m)
        == g.in_degree(k) && m <= k) {
        assert(is_lightest(g, m));
    } else {
        let k = choose|k: u64| #[trigger] g.node_alive(k) && !(g.in_degree(m) < g.in_degree(k) || (g.in_degree(m)
            == g.in_degree(k) && m <= k));
        lemma_lightest_exists_below(g, k, m);
    }
}

/// Descending from a live node to strictly lighter ones (or equally light
/// ones with smaller ids) ends at a least loaded node.
proof fn lemma_lightest_exists_below(g: GraphView, k: u64, m: u64)
    requires
        g.node_alive(k),
        g.nodes.len() <= u64::MAX,
    ensures
        exists|n: u64| is_lightest(g, n),
    decreases g.in_degree(k), k,
{
    if forall|j: u64| #[trigger] g.node_alive(j) ==> g.in_degree(k) < g.in_degree(j) || (g.in_degree(k)
        == g.in_degree(j) && k <= j) {
        assert(is_lightest(g, k));
    } else {
        let j = choose|j: u64| #[trigger] g.node_alive(j) && !(g.in_degree(k) < g.in_degree(j) || (g.in_degree(k)
            == g.in_degree(j) && k <= j));
        lemma_lightest_exists_below(g, j, m);
    }
}

/// The ids of `without(s, removed)` are those of `s` not in `removed`.
pub proof fn lemma_without_contains(s: Seq<u64>, removed: Seq<u64>)
    ensures
        forall|x: u64| #[trigger] without(s, removed).contains(x) <==> s.contains(x) && !removed.contains(x),
    decreases s.len(),
{
    if s.len() > 0 {
        let dl = s.drop_last();
        let t = without(dl, removed);
        lemma_without_contains(dl, removed);
        assert forall|x: u64| s.contains(x) <==> dl.contains(x) || x == s.last() by {
            if s.contains(x) {
                let k = choose|k: int| 0 <= k < s.len() && s[k] == x;
                if k < s.len() - 1 {
                    assert(dl[k] == x);
                }
            }
            if dl.contains(x) {
                let k = choose|k: int| 0 <= k < dl.len() && dl[k] == x;
                assert(s[k] == x);
            }
            if x == s.last() {
                assert(s[s.len() - 1] == x);
            }
        }
        assert forall|x: u64| t.push(s.last()).contains(x) <==> t.contains(x) || x == s.last() by {
            let u = t.push(s.last());
            if u.contains(x) {
                let k = choose|k: int| 0 <= k < u.len() && u[k] == x;
                if k < t.len() {
                    assert(t[k] == x);
                }
            }
            if t.contains(x) {
                let k = choose|k: int| 0 <= k < t.len() && t[k] == x;
                assert(u[k] == x);
            }
            if x == s.last() {
                assert(u[t.len() as int] == x);
            }
        }
        assert forall|x: u64| #[trigger] without(s, removed).contains(x) <==> s.contains(x) && !removed.contains(x) by {
            assert(s.contains(x) <==> dl.contains(x) || x == s.last());
            assert(t.contains(x) <==> dl.contains(x) && !removed.contains(x));
            if removed.contains(s.last()) {
                assert(without(s, removed) == t);
            } else {
                assert(without(s, removed) == t.push(s.last()));
                assert(t.push(s.last()).contains(x) <==> t.contains(x) || x == s.last());
            }
        }
    } else {
        assert forall|x: u64| #[trigger] without(s, removed).contains(x) <==> s.contains(x) && !removed.contains(x) by {
            assert(without(s, removed).len() == 0);
        }
    }
}

/// Both hypergraphs have the same configuration, nodes, and hyperedge slots
/// with the same liveness and sources; only destinations may differ.
pub open spec fn same_shape(g0: GraphView, g1: GraphView) -> bool {
    &&& g1.config == g0.config
    &&& g1.nodes == g0.nodes
    &&& g1.edges.len() == g0.edges.len()
    &&& forall|e: int|
        0 <= e < g0.edges.len() ==> #[trigger] g1.edges[e].alive == g0.edges[e].alive
            && g1.edges[e].sources == g0.edges[e].sources
}

/// The busiest live node: the largest in-degree, the smallest id among those.
pub open spec fn busiest_node(g: GraphView) -> Option<u64> {
    if exists|n: u64| is_busiest(g, n) {
        Some(choose|n: u64| is_busiest(g, n))
    } else {
        None
    }
}

proof fn lemma_busiest_unique(g: GraphView, a: u64, b: u64)
    requires
        is_busiest(g, a),
        is_busiest(g, b),
    ensures
        a == b,
{
    assert(g.node_alive(a) && g.node_alive(b));
}

proof fn lemma_lightest_unique(g: GraphView, a: u64, b: u64)
    requires
        is_lightest(g, a),
        is_lightest(g, b),
    ensures
        a == b,
{
    assert(g.node_alive(a) && g.node_alive(b));
}

/// Whether a balancing round stops before it draws: the busiest node's
/// in-degree is at most one above the lightest node's or at most
/// `degree_target`, or the two are the same node.
pub open spec fn round_settled(g: GraphView, degree_target: usize) -> bool {
    match (busiest_node(g), lightest_node(g)) {
        (Some(hi), Some(lo)) => g.in_degree(hi) <= g.in_degree(lo) + 1 || g.in_degree(hi) <= degree_target || hi == lo,
        _ => false,
    }
}

/// One round of in-degree balancing with `drawn`, the hyperedge drawn among
/// those entering the busiest node (`None` when there is none): without a
/// live node it fails; a settled graph stops the balancing, and so does an
/// empty draw; a dead drawn hyperedge is an error; a drawn hyperedge that
/// does not enter the busiest node, or already enters the lightest one,
/// changes nothing; otherwise the busiest destination is replaced by the
/// lightest node, checked like a new hyperedge, a soft failure changing
/// nothing. The result is whether balancing stops, and the graph.
pub open spec fn balance_round_outcome(g: GraphView, degree_target: usize, drawn: Option<u64>) -> Result<(bool, GraphView), AsmError> {
    match (busiest_node(g), lightest_node(g)) {
        (Some(hi), Some(lo)) => if round_settled(g, degree_target) {
            Ok((true, g))
        } else {
            match drawn {
                None => Ok((true, g)),
                Some(e) => if !g.edge_alive(e as int) {
                    Err(AsmError::UnknownEdge { edge: e })
                } else {
                    let d = g.edges[e as int].destinations;
                    if !d.contains(hi) || d.contains(lo) {
                        Ok((false, g))
                    } else {
                        match replace_outcome(g, e, g.edges[e as int].sources, canonical_of(without(d, seq![hi]).push(lo))) {
                            Ok((_, h)) => Ok((false, h)),
                            Err(err) => if soft_error(err) {
                                Ok((false, g))
                            } else {
                                Err(err)
                            },
                        }
                    }
                },
            }
        },
        _ => Err(AsmError::NoNodes),
    }
}

/// The raw id of an optional hyperedge.
pub open spec fn edge_raw_opt(e: Option<EdgeId>) -> Option<u64> {
    match e {
        Some(x) => Some(x.raw),
        None => None,
    }
}

/// One round of in-degree balancing with the drawn hyperedge: see
/// [`balance_round_outcome`]. Returns whether balancing stops. With a live
/// node and a live (or no) drawn hyperedge the round cannot fail.
pub fn balance_round(graph: &mut HypergraphImpl, degree_target: usize, drawn: Option<EdgeId>) -> (r: Result<bool, AsmError>)
    requires
        old(graph).wf(),
    ensures
        final(graph).wf(),
        match balance_round_outcome(old(graph)@, degree_target, edge_raw_opt(drawn)) {
            Ok((stop, h)) => r == Ok::<bool, AsmError>(stop) && final(graph)@ == h,
            Err(e) => r == Err::<bool, AsmError>(e) && final(graph)@ == old(graph)@,
        },
        (exists|n: u64| old(graph)@.node_alive(n)) && (drawn matches Some(e) ==> old(graph)@.edge_alive(e.raw as int))
            ==> r is Ok,
{
    let ghost g = graph@;
    proof {
        graph.lemma_wf_sets_finite();
    }
    let (max_node, max_in) = match max_in_degree(graph) {
        Ok(p) => p,
        Err(e) => {
            proof {
                assert(!exists|n: u64| is_busiest(g, n));
            }
            return Err(e);
        },
    };
    proof {
        assert(exists|n: u64| is_busiest(g, n));
        lemma_busiest_unique(g, max_node.raw, choose|n: u64| is_busiest(g, n));
        assert(busiest_node(g) == Some(max_node.raw));
    }
    let (min_node, min_in) = match min_in_degree(graph) {
        Ok(p) => p,
        Err(e) => {
            proof {
                assert(!g.node_alive(max_node.raw));
            }
            return Err(e);
        },
    };
    proof {
        assert(exists|n: u64| is_lightest(g, n));
        lemma_lightest_unique(g, min_node.raw, choose|n: u64| is_lightest(g, n));
        assert(lightest_node(g) == Some(min_node.raw));
        lemma_in_degree_bound(g, min_node.raw);
    }
    if max_in <= min_in + 1 || max_in <= degree_target || max_node.raw == min_node.raw {
        return Ok(true);
    }
    let edge_id = match drawn {
        Some(e) => e,
        None => return Ok(true),
    };
    let sources = match graph.src_of(edge_id) {
        Ok(v) => v,
        Err(e) => return Err(e),
    };
    let destinations = match graph.dst_of(edge_id) {
        Ok(v) => v,
        Err(e) => return Err(e),
    };
    if !contains_id(destinations.as_slice(), max_node.raw) || contains_id(destinations.as_slice(), min_node.raw) {
        return Ok(false);
    }
    let ghost e = edge_id.raw as int;
    let ghost d = g.edges[e].destinations;
    let ghost ws = seq![max_node.raw];
    proof {
        lemma_live_canonical(g, e);
    }
    let mut kept: Vec<NodeId> = Vec::new();
    let mut k: usize = 0;
    while k < destinations.len()
        invariant
            k <= destinations@.len(),
            raw_ids(destinations@) == d,
            ws == seq![max_node.raw],
            raw_ids(kept@) == without(d.take(k as int), ws),
        decreases destinations@.len() - k,
    {
        proof {
            assert(d.take(k + 1).drop_last() =~= d.take(k as int));
            assert(d.take(k + 1).last() == d[k as int]);
            assert(d[k as int] == destinations@[k as int].raw);
            assert(ws.contains(d[k as int]) <==> d[k as int] == max_node.raw) by {
                if d[k as int] == max_node.raw {
                    assert(ws[0] == max_node.raw);
                }
            }
        }
        if destinations[k].raw != max_node.raw {
            let ghost before = kept@;
            kept.push(destinations[k]);
            proof {
                assert(raw_ids(kept@) =~= raw_ids(before).push(destinations@[k as int].raw));
            }
        }
        k = k + 1;
    }
    proof {
        assert(d.take(d.len() as int) =~= d);
    }
    let ghost before = kept@;
    kept.push(min_node);
    let canonical = canonicalize_nodes(kept.as_slice());
    let new_destinations = to_node_ids(&canonical);
    let ghost src = g.edges[e].sources;
    proof {
        let kr = raw_ids(kept@);
        assert(kr =~= without(d, ws).push(min_node.raw));
        lemma_without_contains(d, ws);
        lemma_sorted_len(d);
        lemma_sorted_len(canonical@);
        assert(ws.contains(max_node.raw)) by {
            assert(ws[0] == max_node.raw);
        }
        assert(d.contains(max_node.raw));
        assert(!d.contains(min_node.raw));
        assert forall|x: u64| #[trigger] kr.to_set().contains(x) <==> d.to_set().remove(max_node.raw).insert(min_node.raw).contains(x) by {
            if kr.contains(x) {
                let j = choose|j: int| 0 <= j < kr.len() && kr[j] == x;
                if j < kr.len() - 1 {
                    assert(without(d, ws).contains(x));
                }
            }
            if x != min_node.raw && d.contains(x) && x != max_node.raw {
                assert(!ws.contains(x)) by {
                    if ws.contains(x) {
                        let j = choose|j: int| 0 <= j < ws.len() && ws[j] == x;
                    }
                }
                assert(without(d, ws).contains(x));
                let j = choose|j: int| 0 <= j < without(d, ws).len() && without(d, ws)[j] == x;
                assert(kr[j] == x);
            }
            if x == min_node.raw {
                assert(kr[kr.len() - 1] == x);
            }
        }
        assert(kr.to_set() =~= d.to_set().remove(max_node.raw).insert(min_node.raw));
        assert(canonical@.len() == d.len());
        lemma_canonical_of(canonical@, canonical@);
        assert(canonical@ == canonical_of(without(d, seq![max_node.raw]).push(min_node.raw)));
        assert(raw_ids(new_destinations@) == canonical@);
        assert(g.edge_ok(e));
        assert forall|j: int| 0 <= j < canonical@.len() implies detached(g, e).node_alive(#[trigger] canonical@[j]) by {
            let x = canonical@[j];
            assert(canonical@.to_set().contains(x));
            if x != min_node.raw {
                assert(d.contains(x));
                let q = choose|q: int| 0 <= q < d.len() && d[q] == x;
                assert(g.node_alive(d[q]));
            }
        }
        assert forall|j: int| 0 <= j < src.len() implies detached(g, e).node_alive(#[trigger] src[j]) by {
            assert(g.node_alive(src[j]));
        }
        lemma_attach_soft(detached(g, e), src, canonical@);
    }
    match graph.overwrite_edge(edge_id, sources.as_slice(), new_destinations.as_slice()) {
        Ok(_) => Ok(false),
        Err(err) => {
            if is_soft_error(&err) {
                Ok(false)
            } else {
                Err(err)
            }
        },
    }
}

/// The balancing state after the rounds with the draws `draws`, from graph
/// `g`; once a round stops the balancing, later draws change nothing.
pub open spec fn balance_run(g: GraphView, degree_target: usize, draws: Seq<Option<u64>>) -> Result<(bool, GraphView), AsmError>
    decreases draws.len(),
{
    if draws.len() == 0 {
        Ok((false, g))
    } else {
        match balance_run(g, degree_target, draws.drop_last()) {
            Ok((false, h)) => balance_round_outcome(h, degree_target, draws.last()),
            other => other,
        }
    }
}

/// A draw made in graph `h`: one of the hyperedges entering its busiest
/// node, or none when none does.
pub open spec fn drawn_from(h: GraphView, drawn: Option<u64>) -> bool {
    match busiest_node(h) {
        Some(b) => match drawn {
            Some(e) => h.in_set(b).contains(e),
            None => h.in_set(b) == Set::<u64>::empty(),
        },
        None => true,
    }
}

/// Every draw of `draws` is made in the graph its round starts from.
pub open spec fn fair_round_draws(g: GraphView, degree_target: usize, draws: Seq<Option<u64>>) -> bool
    decreases draws.len(),
{
    draws.len() == 0 || (fair_round_draws(g, degree_target, draws.drop_last()) && match balance_run(
        g,
        degree_target,
        draws.drop_last(),
    ) {
        Ok((false, h)) => drawn_from(h, draws.last()),
        _ => true,
    })
}

/// The number of balancing rounds: twice the hyperedge slots, at most
/// `usize::MAX`.
pub open spec fn balance_iterations(g: GraphView) -> int {
    if g.edges.len() * 2 > usize::MAX {
        usize::MAX as int
    } else {
        (g.edges.len() * 2) as int
    }
}

/// `g` is what balancing `g0` towards `degree_target` gives for some draws:
/// nothing for a zero target; otherwise rounds with fair draws lead from `g0`
/// to `g`, and after them a round stopped the balancing, the rounds are used
/// up, or `g` is settled.
pub open spec fn balancing(g0: GraphView, degree_target: usize, g: GraphView) -> bool {
    if degree_target == 0 {
        g == g0
    } else {
        exists|draws: Seq<Option<u64>>|
            #[trigger] fair_round_draws(g0, degree_target, draws) && draws.len() <= balance_iterations(g0)
                && match balance_run(g0, degree_target, draws) {
                Ok((stopped, h)) => h == g && (stopped || draws.len() == balance_iterations(g0) || round_settled(g, degree_target)),
                Err(_) => false,
            }
    }
}

/// A round keeps the shape of the graph.
proof fn lemma_round_shape(g: GraphView, degree_target: usize, drawn: Option<u64>)
    ensures
        balance_round_outcome(g, degree_target, drawn) matches Ok((_, h)) ==> same_shape(g, h),
{
    if let Ok((_, h)) = balance_round_outcome(g, degree_target, drawn) {
        if h != g {
            let e = drawn->0;
            assert(g.edge_alive(e as int));
            assert forall|x: int| 0 <= x < g.edges.len() implies #[trigger] h.edges[x].alive == g.edges[x].alive
                && h.edges[x].sources == g.edges[x].sources by {
                if x != e as int {
                    assert(h.edges[x] == g.edges[x]);
                }
            }
        }
    }
}

/// Moves inbound load from the busiest node to the least loaded one, one
/// destination at a time, for at most twice as many rounds as there are
/// hyperedge slots, stopping once the in-degrees are within one of each
/// other or the busiest node is at `degree_target`; see [`balance_round`].
fn balance_in_degrees(graph: &mut HypergraphImpl, degree_target: usize, rng: &mut StdRng) -> (r: Result<(), AsmError>)
    requires
        old(graph).wf(),
    ensures
        final(graph).wf(),
        same_shape(old(graph)@, final(graph)@),
        r is Err <==> (degree_target > 0 && old(graph)@.edges.len() > 0 && forall|n: u64| !old(graph)@.node_alive(n)),
        r is Err ==> r == Err::<(), AsmError>(AsmError::NoNodes) && final(graph)@ == old(graph)@,
        r is Ok ==> balancing(old(graph)@, degree_target, final(graph)@),
{
    let ghost g0 = graph@;
    if degree_target == 0 {
        return Ok(());
    }
    let iterations = match graph.edge_slot_count().checked_mul(2) {
        Some(v) => v,
        None => usize::MAX,
    };
    let ghost mut draws: Seq<Option<u64>> = Seq::empty();
    let mut it: usize = 0;
    let mut stopped = false;
    let mut settled = false;
    proof {
        graph.lemma_wf_sets_finite();
    }
    while it < iterations && !stopped && !settled
        invariant
            graph.wf(),
            it <= iterations,
            iterations == balance_iterations(g0),
            g0.edges.len() < usize::MAX,
            same_shape(g0, graph@),
            (forall|n: u64| !g0.node_alive(n)) ==> graph@ == g0,
            (forall|n: u64| !g0.node_alive(n)) ==> it == 0,
            old(graph)@ == g0,
            degree_target > 0,
            draws.len() == it,
            fair_round_draws(g0, degree_target, draws),
            balance_run(g0, degree_target, draws) == Ok::<(bool, GraphView), AsmError>((stopped, graph@)),
            settled ==> round_settled(graph@, degree_target),
        decreases iterations - it, if settled {
            0int
        } else {
            1int
        },
    {
        let ghost g = graph@;
        proof {
            graph.lemma_wf_sets_finite();
        }
        let (max_node, max_in) = match max_in_degree(graph) {
            Ok(p) => p,
            Err(e) => {
                proof {
                    assert forall|n: u64| !g0.node_alive(n) by {
                        assert(!graph@.node_alive(n));
                    }
                }
                return Err(e);
            },
        };
        proof {
            assert(g0.node_alive(max_node.raw));
            lemma_busiest_unique(g, max_node.raw, choose|n: u64| is_busiest(g, n));
        }
        let (min_node, min_in) = match min_in_degree(graph) {
            Ok(p) => p,
            Err(e) => {
                proof {
                    assert(!g.node_alive(max_node.raw));
                }
                return Err(e);
            },
        };
        proof {
            lemma_lightest_unique(g, min_node.raw, choose|n: u64| is_lightest(g, n));
            lemma_in_degree_bound(g, min_node.raw);
        }
        if max_in <= min_in + 1 || max_in <= degree_target || max_node.raw == min_node.raw {
            settled = true;
        } else {
            let incoming = match graph.incoming_edges(max_node) {
                Ok(v) => v,
                Err(e) => return Err(e),
            };
            let drawn = choose_edge(incoming.as_slice(), rng);
            let ghost old_draws = draws;
            proof {
                match drawn {
                    Some(x) => {
                        let k = choose|k: int| 0 <= k < incoming@.len() && incoming@[k] == x;
                        assert(edge_raw_ids(incoming@)[k] == x.raw);
                        assert(edge_raw_ids(incoming@).to_set().contains(x.raw));
                        assert(g.in_set(max_node.raw).contains(x.raw));
                    },
                    None => {
                        assert(edge_raw_ids(incoming@).len() == 0);
                        assert(edge_raw_ids(incoming@).to_set() =~= Set::<u64>::empty());
                    },
                }
                draws = draws.push(edge_raw_opt(drawn));
                assert(draws.drop_last() =~= old_draws);
                assert(drawn_from(g, edge_raw_opt(drawn)));
                lemma_round_shape(g, degree_target, edge_raw_opt(drawn));
            }
            match balance_round(graph, degree_target, drawn) {
                Ok(stop) => {
                    stopped = stop;
                },
                Err(e) => {
                    return Err(e);
                },
            }
            it = it + 1;
        }
    }
    Ok(())
}

/// Generates a quasi-regular bounded-degree hypergraph: a bounded-degree one
/// whose in-degrees are then evened out towards `degree_target`. Fails only
/// without nodes.
pub fn gen_quasi_regular(n_nodes: usize, degree_target: usize, k_uniform: usize, rng: &mut StdRng) -> (r: Result<HypergraphImpl, AsmError>)
    requires
        bounded_cap(degree_target) * 16 <= usize::MAX,
        n_nodes + 1 < usize::MAX,
    ensures
        match r {
            Ok(g) => n_nodes > 0 && g.wf() && g@.config == bounded_config(degree_target, k_uniform)
                && g@.nodes == all_live(n_nodes as nat)
                && (forall|e: int| 0 <= e < g@.edges.len() ==> #[trigger] g@.edges[e].alive)
                && exists|h: GraphView| bounded_generation(n_nodes, bounded_cap(degree_target), k_uniform, h)
                    && #[trigger] balancing(h, degree_target, g@),
            Err(e) => n_nodes == 0 && e == AsmError::EmptyGraph,
        },
{
    let cap = if degree_target < 1 {
        1
    } else {
        degree_target
    };
    let mut graph = match gen_bounded_degree(n_nodes, cap, k_uniform, rng) {
        Ok(g) => g,
        Err(e) => return Err(e),
    };
    let ghost g0 = graph@;
    proof {
        assert(g0.node_alive(0));
    }
    match balance_in_degrees(&mut graph, degree_target, rng) {
        Ok(()) => {},
        Err(e) => return Err(e),
    }
    proof {
        assert forall|e: int| 0 <= e < graph@.edges.len() implies #[trigger] graph@.edges[e].alive by {
            assert(g0.edges[e].alive);
        }
        assert(bounded_generation(n_nodes, bounded_cap(degree_target), k_uniform, g0));
        assert(balancing(g0, degree_target, graph@));
    }
    Ok(graph)
}

} // verus!
