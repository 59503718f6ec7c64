//! Properties of the library as a whole, relating its operations.
use vstd::prelude::*;
use crate::graph_spec::{EdgeView, GraphView};
use crate::hash::{canonical_hash_of, sig_set, count_true};
use crate::ids::{canonical_of, strictly_sorted, lemma_canonical_of};
use crate::flags::KUniformity;
use crate::rewire::retarget_outcome;
use crate::hypergraph::HypergraphImpl;
use crate::rewire::{swap_outcome, replace_outcome, live_edge, as_outcome, dry_run_of, RewireDryRun, possible_balance, rebalance_outcome, lightest_node, is_lightest, heaviest, is_heaviest_at, without};
use crate::slots::sets_finite;
use crate::errors::AsmError;
use crate::hypergraph::detached;
use crate::generators::{bounded_config, bounded_cap, partition_of};
use crate::experiments::{scan_records, record_matches};

verus! {

/// Every graph the library hands out is well formed: live hyperedges have
/// sorted, duplicate-free, non-empty endpoints among the live nodes and meet
/// the uniformity rule; no two live hyperedges share their endpoints; no
/// live node exceeds a degree cap; and in causal mode there is no directed
/// cycle.
pub proof fn lemma_graph_invariants(graph: &HypergraphImpl)
    requires
        graph.wf(),
    ensures
        graph@.well_formed(),
        graph@.config.causal_mode ==> graph@.acyclic(),
{
    graph.lemma_wf_sets_finite();
}

/// The canonical hash depends only on the configuration, the number of live
/// nodes and the endpoints of the live hyperedges, not on slot layout.
pub proof fn lemma_hash_depends_on_structure(g1: GraphView, g2: GraphView)
    requires
        g1.config == g2.config,
        count_true(g1.nodes) == count_true(g2.nodes),
        sig_set(g1) == sig_set(g2),
    ensures
        canonical_hash_of(g1) == canonical_hash_of(g2),
{
}

/// Adding a hyperedge and removing it again leaves the canonical hash as it was.
pub proof fn lemma_add_remove_keeps_hash(g: GraphView, s: Seq<u64>, d: Seq<u64>)
    ensures
        canonical_hash_of(
            g.with_edge(s, d).with_slot(g.edges.len() as int, EdgeView { alive: false, sources: s, destinations: d }),
        ) == canonical_hash_of(g),
{
    let h = g.with_edge(s, d).with_slot(g.edges.len() as int, EdgeView { alive: false, sources: s, destinations: d });
    assert(h.edges =~= g.edges.push(EdgeView { alive: false, sources: s, destinations: d }));
    assert forall|p: (Seq<u64>, Seq<u64>)| #[trigger] sig_set(h).contains(p) <==> sig_set(g).contains(p) by {
        if sig_set(h).contains(p) {
            let e = choose|e: int| #[trigger] h.edge_alive(e) && h.edges[e].sources == p.0 && h.edges[e].destinations == p.1;
            assert(g.edge_alive(e));
        }
        if sig_set(g).contains(p) {
            let e = choose|e: int| #[trigger] g.edge_alive(e) && g.edges[e].sources == p.0 && g.edges[e].destinations == p.1;
            assert(h.edges[e] == g.edges[e]);
            assert(h.edge_alive(e));
        }
    }
    assert(sig_set(h) =~= sig_set(g));
    lemma_hash_depends_on_structure(h, g);
}

/// A hyperedge that was added reads back live, with the endpoints it was
/// stored with, under the next slot id.
pub proof fn lemma_added_edge_reads_back(g: GraphView, s: Seq<u64>, d: Seq<u64>)
    ensures
        g.with_edge(s, d).edge_alive(g.edges.len() as int),
        g.with_edge(s, d).edges[g.edges.len() as int].sources == s,
        g.with_edge(s, d).edges[g.edges.len() as int].destinations == d,
        forall|e: int| 0 <= e < g.edges.len() ==> #[trigger] g.with_edge(s, d).edges[e] == g.edges[e],
{
}

/// Swapping the destinations of two hyperedges and then swapping them back
/// restores the graph, whenever both swaps go through.
pub proof fn lemma_swap_twice_restores(g: GraphView, a: u64, b: u64, g1: GraphView, c: bool, g2: GraphView)
    requires
        swap_outcome(g, a, b) == Ok::<(bool, GraphView), crate::errors::AsmError>((true, g1)),
        swap_outcome(g1, a, b) == Ok::<(bool, GraphView), crate::errors::AsmError>((c, g2)),
    ensures
        g2 == g,
        c,
{
    let ea = g.edges[a as int];
    let eb = g.edges[b as int];
    let ga = g.with_slot(a as int, live_edge(ea.sources, eb.destinations));
    assert(g1 == ga.with_slot(b as int, live_edge(eb.sources, ea.destinations)));
    assert(g1.edges[a as int] == live_edge(ea.sources, eb.destinations));
    assert(g1.edges[b as int] == live_edge(eb.sources, ea.destinations));
    let gb = g1.with_slot(a as int, live_edge(ea.sources, ea.destinations));
    assert(g2 == gb.with_slot(b as int, live_edge(eb.sources, eb.destinations)));
    assert(g2.edges =~= g.edges);
}

/// A registry query keeps only rows of the queried plan, in stored order,
/// and at most `limit` of them (one when the limit is zero).
pub proof fn lemma_query_respects_plan_and_limit(records: Seq<Seq<String>>, plan: Option<String>, limit: Option<usize>, n: nat)
    ensures
        forall|i: int| 0 <= i < scan_records(records, plan, limit, n).0.len() ==> record_matches(
            #[trigger] scan_records(records, plan, limit, n).0[i],
            plan,
        ),
        limit is Some ==> scan_records(records, plan, limit, n).0.len() <= if limit->0 < 1 {
            1
        } else {
            limit->0 as int
        },
        limit is Some && !scan_records(records, plan, limit, n).1 ==> scan_records(records, plan, limit, n).0.len() == 0
            || scan_records(records, plan, limit, n).0.len() < limit->0,
    decreases n,
{
    if n > 0 {
        lemma_query_respects_plan_and_limit(records, plan, limit, (n - 1) as nat);
        let prev = scan_records(records, plan, limit, (n - 1) as nat).0;
        let cur = scan_records(records, plan, limit, n).0;
        if cur != prev {
            assert(cur == prev.push(records[n - 1]));
            assert forall|i: int| 0 <= i < cur.len() implies record_matches(#[trigger] cur[i], plan) by {
                if i < prev.len() {
                    assert(cur[i] == prev[i]);
                }
            }
        }
    }
}

/// A generated graph keeps every live node within the degree cap, gives
/// every live hyperedge the balanced numbers of sources and destinations,
/// and has no directed cycle.
pub proof fn lemma_generated_shape(g: GraphView, degree_max: usize, k_uniform: usize)
    requires
        g.well_formed(),
        g.config == bounded_config(degree_max, k_uniform),
    ensures
        forall|n: u64| #[trigger] g.node_alive(n) ==> g.in_degree(n) <= bounded_cap(degree_max) && g.out_degree(n)
            <= bounded_cap(degree_max),
        forall|e: int| #[trigger] g.edge_alive(e) ==> g.edges[e].sources.len() == partition_of(k_uniform).0
            && g.edges[e].destinations.len() == partition_of(k_uniform).1,
        g.acyclic(),
{
    assert forall|n: u64| #[trigger] g.node_alive(n) implies g.in_degree(n) <= bounded_cap(degree_max) && g.out_degree(n)
        <= bounded_cap(degree_max) by {
        assert(g.in_set(n) == g.in_set(n));
        assert(g.out_set(n) == g.out_set(n));
    }
    assert forall|e: int| #[trigger] g.edge_alive(e) implies g.edges[e].sources.len() == partition_of(k_uniform).0
        && g.edges[e].destinations.len() == partition_of(k_uniform).1 by {
        assert(g.edge_ok(e));
    }
}


/// A dry run predicts its move: it reports the error the move fails with,
/// or validity together with the canonical hash of the graph the move
/// leaves whenever the move changes the structure.
pub proof fn lemma_dry_run_predicts_move(o: Result<(bool, GraphView), AsmError>, dry: RewireDryRun, r: Result<bool, AsmError>, after: GraphView)
    requires
        dry_run_of(o, dry),
        as_outcome(r, after) == o,
    ensures
        r is Err ==> dry == RewireDryRun::Invalid(r->Err_0),
        r is Ok ==> (dry is Valid),
        r == Ok::<bool, AsmError>(true) ==> (dry matches RewireDryRun::Valid { hash_preview: Some(h) } && h@ == canonical_hash_of(after)),
        r == Ok::<bool, AsmError>(false) ==> dry == (RewireDryRun::Valid { hash_preview: None }),
{
}

proof fn lemma_cap_check_none(g: GraphView, nodes: Seq<u64>, cap: usize, outbound: bool, i: int)
    requires
        0 <= i <= nodes.len(),
    ensures
        g.first_cap_violation(nodes, cap, outbound, i) is None <==> forall|k: int|
            i <= k < nodes.len() ==> #[trigger] g.has_room(nodes[k], cap, outbound),
    decreases nodes.len() - i,
{
    if i < nodes.len() {
        lemma_cap_check_none(g, nodes, cap, outbound, i + 1);
        if g.first_cap_violation(nodes, cap, outbound, i) is None {
            assert(g.has_room(nodes[i], cap, outbound));
            assert forall|k: int| i <= k < nodes.len() implies #[trigger] g.has_room(nodes[k], cap, outbound) by {
                if k > i {
                    assert(i + 1 <= k);
                }
            }
        }
        if forall|k: int| i <= k < nodes.len() ==> #[trigger] g.has_room(nodes[k], cap, outbound) {
            assert(g.has_room(nodes[i], cap, outbound));
            assert forall|k: int| i + 1 <= k < nodes.len() implies #[trigger] g.has_room(nodes[k], cap, outbound) by {
                assert(i <= k);
            }
        }
    }
}

proof fn lemma_unknown_check_none(g: GraphView, nodes: Seq<u64>, i: int)
    requires
        0 <= i <= nodes.len(),
    ensures
        g.first_unknown(nodes, i) is None <==> forall|k: int| i <= k < nodes.len() ==> #[trigger] g.node_alive(nodes[k]),
    decreases nodes.len() - i,
{
    if i < nodes.len() {
        lemma_unknown_check_none(g, nodes, i + 1);
        if g.first_unknown(nodes, i) is None {
            assert forall|k: int| i <= k < nodes.len() implies #[trigger] g.node_alive(nodes[k]) by {
                if k > i {
                    assert(i + 1 <= k);
                }
            }
        }
        if forall|k: int| i <= k < nodes.len() ==> #[trigger] g.node_alive(nodes[k]) {
            assert(g.node_alive(nodes[i]));
            assert forall|k: int| i + 1 <= k < nodes.len() implies #[trigger] g.node_alive(nodes[k]) by {
                assert(i <= k);
            }
        }
    }
}

/// A hyperedge can be added exactly when, with its endpoints sorted and
/// deduplicated, both endpoint lists are non-empty, every endpoint is a live
/// node, the counts meet the uniformity rule, every source has room under
/// the outbound cap and every destination under the inbound cap (where a
/// cap is set), the new hyperedge closes no directed cycle in causal mode,
/// and no live hyperedge has the same endpoints. Added, it reads back with
/// those sorted endpoints (see `lemma_added_edge_reads_back`).
pub proof fn lemma_add_edge_conditions(g: GraphView, s: Seq<u64>, d: Seq<u64>)
    ensures
        g.add_edge_error(s, d) is None <==> {
            let cs = canonical_of(s);
            let cd = canonical_of(d);
            &&& s.len() > 0
            &&& d.len() > 0
            &&& forall|k: int| 0 <= k < cs.len() ==> #[trigger] g.node_alive(cs[k])
            &&& forall|k: int| 0 <= k < cd.len() ==> #[trigger] g.node_alive(cd[k])
            &&& g.config.arity_ok(cs.len() as int, cd.len() as int)
            &&& (g.config.max_out_degree matches Some(cap) ==> forall|k: int|
                0 <= k < cs.len() ==> #[trigger] g.out_degree(cs[k]) < cap)
            &&& (g.config.max_in_degree matches Some(cap) ==> forall|k: int|
                0 <= k < cd.len() ==> #[trigger] g.in_degree(cd[k]) < cap)
            &&& (g.config.causal_mode ==> g.with_edge(cs, cd).acyclic())
            &&& !g.has_signature(cs, cd)
        },
{
    let cs = canonical_of(s);
    let cd = canonical_of(d);
    lemma_unknown_check_none(g, cs, 0);
    lemma_unknown_check_none(g, cd, 0);
    match g.config.max_out_degree {
        Some(cap) => {
            lemma_cap_check_none(g, cs, cap, true, 0);
            if forall|k: int| 0 <= k < cs.len() ==> #[trigger] g.has_room(cs[k], cap, true) {
                assert forall|k: int| 0 <= k < cs.len() implies #[trigger] g.out_degree(cs[k]) < cap by {
                    assert(g.has_room(cs[k], cap, true));
                }
            }
            if (forall|k: int| 0 <= k < cs.len() ==> #[trigger] g.node_alive(cs[k])) && (forall|k: int|
                0 <= k < cs.len() ==> #[trigger] g.out_degree(cs[k]) < cap) {
                assert forall|k: int| 0 <= k < cs.len() implies #[trigger] g.has_room(cs[k], cap, true) by {
                    assert(g.node_alive(cs[k]));
                    assert(g.out_degree(cs[k]) < cap);
                }
            }
        },
        None => {},
    }
    match g.config.max_in_degree {
        Some(cap) => {
            lemma_cap_check_none(g, cd, cap, false, 0);
            if forall|k: int| 0 <= k < cd.len() ==> #[trigger] g.has_room(cd[k], cap, false) {
                assert forall|k: int| 0 <= k < cd.len() implies #[trigger] g.in_degree(cd[k]) < cap by {
                    assert(g.has_room(cd[k], cap, false));
                }
            }
            if (forall|k: int| 0 <= k < cd.len() ==> #[trigger] g.node_alive(cd[k])) && (forall|k: int|
                0 <= k < cd.len() ==> #[trigger] g.in_degree(cd[k]) < cap) {
                assert forall|k: int| 0 <= k < cd.len() implies #[trigger] g.has_room(cd[k], cap, false) by {
                    assert(g.node_alive(cd[k]));
                    assert(g.in_degree(cd[k]) < cap);
                }
            }
        },
        None => {},
    }
}

/// The first position among `d[..n]` with the largest in-degree.
spec fn heaviest_index(g: GraphView, d: Seq<u64>, n: int) -> int
    decreases n,
{
    if n <= 1 {
        0
    } else {
        let b = heaviest_index(g, d, n - 1);
        if g.in_degree(d[n - 1]) > g.in_degree(d[b]) {
            n - 1
        } else {
            b
        }
    }
}

proof fn lemma_heaviest_prefix(g: GraphView, d: Seq<u64>, n: int)
    requires
        1 <= n <= d.len(),
    ensures
        0 <= heaviest_index(g, d, n) < n,
        forall|j: int| 0 <= j < n ==> g.in_degree(#[trigger] d[j]) <= g.in_degree(d[heaviest_index(g, d, n)]),
        forall|j: int| 0 <= j < heaviest_index(g, d, n) ==> g.in_degree(#[trigger] d[j]) < g.in_degree(d[heaviest_index(g, d, n)]),
    decreases n,
{
    if n > 1 {
        lemma_heaviest_prefix(g, d, n - 1);
    }
}

/// `h` is `g` with outgoing hyperedge `e` of `node` given new destinations:
/// its destination `w` taken out and live node `t`, not a destination
/// before, put in, sorted; its sources and every other slot stay.
pub open spec fn moved_one_destination(g: GraphView, node: u64, h: GraphView, e: u64, w: u64, t: u64) -> bool {
    let d = g.edges[e as int].destinations;
    &&& g.out_set(node).contains(e)
    &&& d.contains(w)
    &&& !d.contains(t)
    &&& g.node_alive(t)
    &&& h == g.with_slot(e as int, live_edge(g.edges[e as int].sources, canonical_of(without(d, seq![w]).push(t))))
}

/// A load-balancing move from `node` that fails, or reports no change,
/// leaves the graph as it was; from a live node without outgoing hyperedges
/// it changes nothing; a move that reports a change gave one outgoing
/// hyperedge of the node new destinations: the old ones with one of them
/// (its busiest) taken out and the least loaded live node, not among them
/// before, put in, sorted; sources and all other slots stay.
pub proof fn lemma_balance_move(g: GraphView, node: u64, o: Result<(bool, GraphView), AsmError>)
    requires
        g.well_formed(),
        sets_finite(g),
        possible_balance(g, node, o),
    ensures
        o matches Ok((false, h)) ==> h == g,
        g.node_alive(node) && g.out_degree(node) == 0 ==> o == Ok::<(bool, GraphView), AsmError>((false, g)),
        o matches Ok((true, h)) ==> exists|e: u64, w: u64, t: u64| #[trigger] moved_one_destination(g, node, h, e, w, t),
{
    if g.node_alive(node) && g.out_degree(node) == 0 {
        assert(g.out_set(node).finite());
        assert(g.out_set(node) =~= Set::<u64>::empty());
    }
    if g.node_alive(node) && g.out_set(node) != Set::<u64>::empty() {
        let e = choose|e: u64| g.out_set(node).contains(e) && o == #[trigger] rebalance_outcome(g, e);
        if let Some(t) = lightest_node(g) {
            let x: u64 = choose|x: u64| is_lightest(g, x);
            assert(is_lightest(g, x));
            if g.edge_alive(e as int) {
                let d = g.edges[e as int].destinations;
                if !d.contains(t) {
                    let w = heaviest(g, d);
                    if w != t {
                        assert(g.edge_ok(e as int));
                        lemma_heaviest_prefix(g, d, d.len() as int);
                        assert(is_heaviest_at(g, d, heaviest_index(g, d, d.len() as int)));
                        let i = choose|i: int| is_heaviest_at(g, d, i);
                        assert(d.contains(d[i]));
                        match o {
                            Ok((true, h)) => {
                                assert(is_lightest(g, t));
                                assert(h == g.with_slot(
                                    e as int,
                                    live_edge(g.edges[e as int].sources, canonical_of(without(d, seq![w]).push(t))),
                                ));
                                assert(g.out_set(node).contains(e) && d.contains(w) && !d.contains(t) && g.node_alive(w)
                                    && g.node_alive(t) && h.edges[e as int] == h.edges[e as int]);
                                assert(moved_one_destination(g, node, h, e, w, t));
                            },
                            _ => {},
                        }
                    }
                }
            }
        }
    }
}

/// What a uniformity rule accepts: under `Total { total, min_sources }`
/// exactly `total` endpoints, at least `min_sources` of them sources and at
/// least one a destination; under `Balanced { sources, destinations }`
/// exactly that many of each.
pub proof fn lemma_uniformity_counts(rule: KUniformity, s: int, d: int)
    ensures
        rule matches KUniformity::Total { total, min_sources } ==> (rule.allows(s, d) <==> s + d == total && s
            >= min_sources && d >= 1),
        rule matches KUniformity::Balanced { sources, destinations } ==> (rule.allows(s, d) <==> s == sources && d
            == destinations),
{
}

/// Every live hyperedge of a well-formed graph has the counts its
/// configuration's uniformity rule names: under a `Total` rule its sources
/// and destinations together number exactly `total`.
pub proof fn lemma_live_edges_meet_uniformity(g: GraphView, e: int)
    requires
        g.well_formed(),
        g.edge_alive(e),
    ensures
        g.config.k_uniform matches Some(KUniformity::Total { total, min_sources }) ==> g.edges[e].sources.len()
            + g.edges[e].destinations.len() == total && g.edges[e].sources.len() >= min_sources,
        g.config.k_uniform matches Some(KUniformity::Balanced { sources, destinations }) ==> g.edges[e].sources.len()
            == sources && g.edges[e].destinations.len() == destinations,
{
    assert(g.edge_ok(e));
    match g.config.k_uniform {
        Some(rule) => lemma_uniformity_counts(rule, g.edges[e].sources.len() as int, g.edges[e].destinations.len() as int),
        None => {},
    }
}

/// The number of live nodes, the count the canonical hash encodes, is the
/// number of `true` slots: a dead slot adds nothing, a live one adds one, and
/// killing a live node lowers it by one. It never exceeds the slot count.
pub proof fn lemma_live_count(s: Seq<bool>)
    ensures
        count_true(s) == s.filter(|b: bool| b).len(),
        count_true(s) <= s.len(),
        count_true(s.push(false)) == count_true(s),
        count_true(s.push(true)) == count_true(s) + 1,
        forall|i: int| 0 <= i < s.len() && s[i] ==> #[trigger] count_true(s.update(i, false)) + 1 == count_true(s),
    decreases s.len(),
{
    assert(s.push(false).drop_last() =~= s);
    assert(s.push(true).drop_last() =~= s);
    let f = |b: bool| b;
    reveal(Seq::filter);
    if s.len() == 0 {
        assert(s.filter(f).len() == 0);
    }
    if s.len() > 0 {
        let t = s.drop_last();
        lemma_live_count(t);
        assert(s.filter(f) == (if f(s.last()) {
            t.filter(f).push(s.last())
        } else {
            t.filter(f)
        }));
        assert forall|i: int| 0 <= i < s.len() && s[i] implies #[trigger] count_true(s.update(i, false)) + 1 == count_true(s) by {
            let u = s.update(i, false);
            if i == s.len() - 1 {
                assert(u.drop_last() =~= t);
            } else {
                assert(u.drop_last() =~= t.update(i, false));
                assert(t[i]);
                assert(count_true(t.update(i, false)) + 1 == count_true(t));
            }
        }
    }
}

/// A dead node slot does not change the canonical hash: the hash counts live
/// nodes only.
pub proof fn lemma_dead_slot_keeps_hash(g: GraphView)
    ensures
        canonical_hash_of(GraphView { config: g.config, nodes: g.nodes.push(false), edges: g.edges }) == canonical_hash_of(g),
{
    let h = GraphView { config: g.config, nodes: g.nodes.push(false), edges: g.edges };
    lemma_live_count(g.nodes);
    assert(sig_set(h) =~= sig_set(g)) by {
        assert forall|p: (Seq<u64>, Seq<u64>)| sig_set(h).contains(p) <==> sig_set(g).contains(p) by {
            if sig_set(h).contains(p) {
                let e = choose|e: int| #[trigger] h.edge_alive(e) && h.edges[e].sources == p.0 && h.edges[e].destinations == p.1;
                assert(g.edge_alive(e));
            }
            if sig_set(g).contains(p) {
                let e = choose|e: int| #[trigger] g.edge_alive(e) && g.edges[e].sources == p.0 && g.edges[e].destinations == p.1;
                assert(h.edge_alive(e));
            }
        }
    }
    lemma_hash_depends_on_structure(h, g);
}

/// `t` with `x` put in its ascending place (nothing when `t` holds it).
spec fn sorted_insert(t: Seq<u64>, x: u64) -> Seq<u64>
    decreases t.len(),
{
    if t.len() == 0 {
        seq![x]
    } else if x < t[0] {
        seq![x] + t
    } else if x == t[0] {
        t
    } else {
        seq![t[0]] + sorted_insert(t.drop_first(), x)
    }
}

proof fn lemma_sorted_insert(t: Seq<u64>, x: u64)
    requires
        strictly_sorted(t),
    ensures
        strictly_sorted(sorted_insert(t, x)),
        sorted_insert(t, x).to_set() == t.to_set().insert(x),
        sorted_insert(t, x).len() > 0,
        sorted_insert(t, x)[0] == (if t.len() > 0 && t[0] < x { t[0] } else { x }),
    decreases t.len(),
{
    let r = sorted_insert(t, x);
    if t.len() == 0 {
        assert(r.to_set() =~= t.to_set().insert(x)) by {
            assert(r[0] == x);
        }
    } else if x < t[0] {
        assert forall|i: int, j: int| 0 <= i < j < r.len() implies r[i] < r[j] by {
            if i > 0 {
                assert(r[i] == t[i - 1] && r[j] == t[j - 1]);
            } else {
                assert(r[j] == t[j - 1]);
                assert(t[0] <= t[j - 1]) by {
                    if j - 1 > 0 {
                        assert(t[0] < t[j - 1]);
                    }
                }
            }
        }
        assert(r.to_set() =~= t.to_set().insert(x)) by {
            assert forall|y: u64| r.contains(y) <==> t.contains(y) || y == x by {
                if r.contains(y) {
                    let k = choose|k: int| 0 <= k < r.len() && r[k] == y;
                    if k > 0 {
                        assert(t[k - 1] == y);
                    }
                }
                if t.contains(y) {
                    let k = choose|k: int| 0 <= k < t.len() && t[k] == y;
                    assert(r[k + 1] == y);
                }
                if y == x {
                    assert(r[0] == y);
                }
            }
        }
    } else if x == t[0] {
        assert(r.to_set() =~= t.to_set().insert(x)) by {
            assert(t.contains(x)) by {
                assert(t[0] == x);
            }
        }
    } else {
        let rest = t.drop_first();
        assert(strictly_sorted(rest)) by {
            assert forall|i: int, j: int| 0 <= i < j < rest.len() implies rest[i] < rest[j] by {
                assert(rest[i] == t[i + 1] && rest[j] == t[j + 1]);
            }
        }
        lemma_sorted_insert(rest, x);
        let q = sorted_insert(rest, x);
        assert(r == seq![t[0]] + q);
        assert forall|i: int, j: int| 0 <= i < j < r.len() implies r[i] < r[j] by {
            if i > 0 {
                assert(r[i] == q[i - 1] && r[j] == q[j - 1]);
            } else {
                assert(r[j] == q[j - 1]);
                assert(q.to_set().contains(q[j - 1]));
                assert(q[0] <= q[j - 1]) by {
                    if j - 1 > 0 {
                        assert(q[0] < q[j - 1]);
                    }
                }
                if rest.len() > 0 {
                    assert(t[0] < t[1]);
                }
            }
        }
        assert(r.to_set() =~= t.to_set().insert(x)) by {
            assert forall|y: u64| r.contains(y) <==> t.contains(y) || y == x by {
                if r.contains(y) {
                    let k = choose|k: int| 0 <= k < r.len() && r[k] == y;
                    if k > 0 {
                        assert(q[k - 1] == y);
                        assert(q.to_set().contains(y));
                        if y != x {
                            assert(rest.to_set().contains(y));
                            let m = choose|m: int| 0 <= m < rest.len() && rest[m] == y;
                            assert(t[m + 1] == y);
                        }
                    } else {
                        assert(t[0] == y);
                    }
                }
                if t.contains(y) {
                    let k = choose|k: int| 0 <= k < t.len() && t[k] == y;
                    if k == 0 {
                        assert(r[0] == y);
                    } else {
                        assert(rest[k - 1] == y);
                        assert(rest.to_set().contains(y));
                        assert(q.to_set().contains(y));
                        let m = choose|m: int| 0 <= m < q.len() && q[m] == y;
                        assert(r[m + 1] == y);
                    }
                }
                if y == x {
                    assert(q.to_set().contains(x));
                    let m = choose|m: int| 0 <= m < q.len() && q[m] == x;
                    assert(r[m + 1] == x);
                }
            }
        }
    }
}

/// The ascending, duplicate-free list of the ids of `s`.
spec fn sorted_of(s: Seq<u64>) -> Seq<u64>
    decreases s.len(),
{
    if s.len() == 0 {
        Seq::empty()
    } else {
        sorted_insert(sorted_of(s.drop_last()), s.last())
    }
}

/// The canonical form of any id list is ascending, free of duplicates and
/// holds exactly the list's ids.
pub proof fn lemma_canonical_form(s: Seq<u64>)
    ensures
        strictly_sorted(canonical_of(s)),
        canonical_of(s).to_set() == s.to_set(),
    decreases s.len(),
{
    lemma_sorted_of(s);
    lemma_canonical_of(sorted_of(s), s);
}

proof fn lemma_sorted_of(s: Seq<u64>)
    ensures
        strictly_sorted(sorted_of(s)),
        sorted_of(s).to_set() == s.to_set(),
    decreases s.len(),
{
    if s.len() == 0 {
        assert(s.to_set() =~= Set::<u64>::empty());
        assert(sorted_of(s).to_set() =~= Set::<u64>::empty());
    } else {
        let t = s.drop_last();
        lemma_sorted_of(t);
        lemma_sorted_insert(sorted_of(t), s.last());
        assert(s =~= t.push(s.last()));
        t.lemma_push_to_set_commute(s.last());
    }
}

/// A successful retarget of hyperedge `e` leaves it with the destinations
/// it had minus `removed`, plus `added`, stored ascending without
/// duplicates; it reports a change exactly when that set differs from the
/// old destinations. Its sources and every other slot stay, and a retarget
/// that reports no change leaves the graph as it was.
pub proof fn lemma_retarget_result(g: GraphView, e: u64, removed: Seq<u64>, added: Seq<u64>, changed: bool, h: GraphView)
    requires
        g.well_formed(),
        retarget_outcome(g, e, removed, added) == Ok::<(bool, GraphView), AsmError>((changed, h)),
    ensures
        g.edge_alive(e as int),
        changed <==> g.edges[e as int].destinations.to_set().difference(removed.to_set()).union(added.to_set())
            != g.edges[e as int].destinations.to_set(),
        !changed ==> h == g,
        changed ==> h.config == g.config && h.nodes == g.nodes && h.edges.len() == g.edges.len()
            && h.edges[e as int].alive && h.edges[e as int].sources == g.edges[e as int].sources
            && strictly_sorted(h.edges[e as int].destinations)
            && h.edges[e as int].destinations.to_set() == g.edges[e as int].destinations.to_set().difference(
            removed.to_set(),
        ).union(added.to_set()) && forall|x: int| 0 <= x < g.edges.len() && x != e ==> #[trigger] h.edges[x] == g.edges[x],
{
    let d = g.edges[e as int].destinations;
    let target = d.to_set().difference(removed.to_set()).union(added.to_set());
    assert(g.edge_ok(e as int));
    lemma_canonical_of(d, d);
    if removed.len() == 0 && added.len() == 0 {
        assert(target =~= d.to_set());
    } else {
        let w = without(d, removed);
        let nd = canonical_of(w + added);
        crate::generators::lemma_without_contains(d, removed);
        lemma_canonical_form(w + added);
        assert(nd.to_set() =~= target) by {
            assert forall|y: u64| nd.to_set().contains(y) <==> target.contains(y) by {
                assert((w + added).to_set().contains(y) <==> w.contains(y) || added.contains(y)) by {
                    if (w + added).contains(y) {
                        let k = choose|k: int| 0 <= k < (w + added).len() && (w + added)[k] == y;
                        if k < w.len() {
                            assert(w[k] == y);
                        } else {
                            assert(added[k - w.len()] == y);
                        }
                    }
                    if w.contains(y) {
                        let k = choose|k: int| 0 <= k < w.len() && w[k] == y;
                        assert((w + added)[k] == y);
                    }
                    if added.contains(y) {
                        let k = choose|k: int| 0 <= k < added.len() && added[k] == y;
                        assert((w + added)[w.len() + k] == y);
                    }
                }
            }
        }
        if nd == d {
            assert(target == d.to_set());
        } else {
            if target == d.to_set() {
                crate::ids::lemma_sorted_same_set_equal(nd, d);
            }
        }
    }
}

} // verus!
