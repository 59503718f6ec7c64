//! Facts about directed walks in the hypergraph model, leading to the
//! characterisation of when one more hyperedge closes a cycle.
use vstd::prelude::*;
use crate::graph_spec::GraphView;

verus! {

/// Two graphs whose hyperedge slots agree have the same adjacency sets,
/// steps, walks and acyclicity.
pub proof fn lemma_same_edges(g0: GraphView, g1: GraphView)
    requires
        g0.edges == g1.edges,
    ensures
        forall|n: u64| #[trigger] g0.out_set(n) == g1.out_set(n),
        forall|n: u64| #[trigger] g0.in_set(n) == g1.in_set(n),
        forall|u: u64, v: u64| #[trigger] g0.step(u, v) == g1.step(u, v),
        forall|p: Seq<u64>| #[trigger] g0.is_path(p) == g1.is_path(p),
        g0.acyclic() == g1.acyclic(),
{
    assert forall|n: u64| #[trigger] g0.out_set(n) == g1.out_set(n) by {
        assert(g0.out_set(n) =~= g1.out_set(n));
    }
    assert forall|n: u64| #[trigger] g0.in_set(n) == g1.in_set(n) by {
        assert(g0.in_set(n) =~= g1.in_set(n));
    }
    assert forall|u: u64, v: u64| #[trigger] g0.step(u, v) == g1.step(u, v) by {
        if g0.step(u, v) {
            let e = choose|e: int|
                #![trigger g0.edges[e].sources.contains(u), g0.edges[e].destinations.contains(v)]
                g0.edge_alive(e) && g0.edges[e].sources.contains(u) && g0.edges[e].destinations.contains(v);
            assert(g1.edge_alive(e) && g1.edges[e].sources.contains(u) && g1.edges[e].destinations.contains(v));
        }
        if g1.step(u, v) {
            let e = choose|e: int|
                #![trigger g1.edges[e].sources.contains(u), g1.edges[e].destinations.contains(v)]
                g1.edge_alive(e) && g1.edges[e].sources.contains(u) && g1.edges[e].destinations.contains(v);
            assert(g0.edge_alive(e) && g0.edges[e].sources.contains(u) && g0.edges[e].destinations.contains(v));
        }
    }
    assert forall|p: Seq<u64>| #[trigger] g0.is_path(p) == g1.is_path(p) by {
        if g0.is_path(p) {
            assert forall|i: int| 0 <= i < p.len() - 1 implies #[trigger] g1.link(p, i) by {
                assert(g0.link(p, i));
            }
        }
        if g1.is_path(p) {
            assert forall|i: int| 0 <= i < p.len() - 1 implies #[trigger] g0.link(p, i) by {
                assert(g1.link(p, i));
            }
        }
    }
    if g0.acyclic() {
        assert forall|p: Seq<u64>| #[trigger] g1.is_path(p) && p.len() >= 2 implies p[0] != p.last() by {
            assert(g0.is_path(p));
        }
    }
    if g1.acyclic() {
        assert forall|p: Seq<u64>| #[trigger] g0.is_path(p) && p.len() >= 2 implies p[0] != p.last() by {
            assert(g1.is_path(p));
        }
    }
}

/// If every step of `g1` is a step of `g0`, acyclicity passes from `g0` to `g1`.
pub proof fn lemma_fewer_steps_acyclic(g0: GraphView, g1: GraphView)
    requires
        forall|u: u64, v: u64| #[trigger] g1.step(u, v) ==> g0.step(u, v),
        g0.acyclic(),
    ensures
        g1.acyclic(),
{
    assert forall|p: Seq<u64>| #[trigger] g1.is_path(p) && p.len() >= 2 implies p[0] != p.last() by {
        assert forall|i: int| 0 <= i < p.len() - 1 implies #[trigger] g0.link(p, i) by {
            assert(g1.link(p, i));
        }
        assert(g0.is_path(p));
    }
}

/// Graphs with the same steps are acyclic together.
pub proof fn lemma_same_steps_acyclic(g0: GraphView, g1: GraphView)
    requires
        forall|u: u64, v: u64| #[trigger] g1.step(u, v) == g0.step(u, v),
    ensures
        g1.acyclic() == g0.acyclic(),
{
    if g0.acyclic() {
        lemma_fewer_steps_acyclic(g0, g1);
    }
    if g1.acyclic() {
        lemma_fewer_steps_acyclic(g1, g0);
    }
}

/// A node without outgoing steps reaches only itself.
pub proof fn lemma_reaches_from_sink(g: GraphView, u: u64, v: u64)
    requires
        forall|w: u64| !#[trigger] g.step(u, w),
    ensures
        g.reaches(u, v) <==> u == v,
{
    if g.reaches(u, v) {
        let p = choose|p: Seq<u64>| #[trigger] g.is_path(p) && p.len() >= 1 && p[0] == u && p.last() == v;
        if p.len() >= 2 {
            assert(g.link(p, 0));
            assert(false);
        }
    }
    if u == v {
        lemma_reaches_refl(g, u);
    }
}

/// Every node reaches itself.
pub proof fn lemma_reaches_refl(g: GraphView, u: u64)
    ensures
        g.reaches(u, u),
{
    let p = seq![u];
    assert(g.is_path(p));
}

/// A walk extended by one step is a walk.
pub proof fn lemma_path_push(g: GraphView, p: Seq<u64>, w: u64)
    requires
        g.is_path(p),
        p.len() >= 1,
        g.step(p.last(), w),
    ensures
        g.is_path(p.push(w)),
{
    let q = p.push(w);
    assert forall|i: int| 0 <= i < q.len() - 1 implies #[trigger] g.link(q, i) by {
        if i < p.len() - 1 {
            assert(g.link(p, i));
        }
    }
}

/// Reachability extends by one step.
pub proof fn lemma_reaches_step(g: GraphView, u: u64, v: u64, w: u64)
    requires
        g.reaches(u, v),
        g.step(v, w),
    ensures
        g.reaches(u, w),
{
    let p = choose|p: Seq<u64>| #[trigger] g.is_path(p) && p.len() >= 1 && p[0] == u && p.last() == v;
    lemma_path_push(g, p, w);
    let q = p.push(w);
    assert(g.is_path(q) && q.len() >= 1 && q[0] == u && q.last() == w);
}

/// Joining two walks that meet end to start gives a walk.
pub proof fn lemma_path_concat(g: GraphView, p: Seq<u64>, q: Seq<u64>)
    requires
        g.is_path(p),
        g.is_path(q),
        p.len() >= 1,
        q.len() >= 1,
        p.last() == q[0],
    ensures
        g.is_path(p + q.drop_first()),
        (p + q.drop_first()).len() == p.len() + q.len() - 1,
        (p + q.drop_first())[0] == p[0],
        (p + q.drop_first()).last() == q.last(),
{
    let r = p + q.drop_first();
    assert forall|i: int| 0 <= i < r.len() - 1 implies #[trigger] g.link(r, i) by {
        if i < p.len() - 1 {
            assert(g.link(p, i));
        } else {
            let j = i - (p.len() - 1);
            assert(g.link(q, j));
            if j == 0 {
                assert(r[i] == p.last());
            } else {
                assert(r[i] == q[j]);
            }
            assert(r[i + 1] == q[j + 1]);
        }
    }
    if q.len() == 1 {
        assert(r.last() == p.last());
    } else {
        assert(r.last() == q.last());
    }
}

/// Reachability is transitive.
pub proof fn lemma_reaches_trans(g: GraphView, u: u64, v: u64, w: u64)
    requires
        g.reaches(u, v),
        g.reaches(v, w),
    ensures
        g.reaches(u, w),
{
    let p = choose|p: Seq<u64>| #[trigger] g.is_path(p) && p.len() >= 1 && p[0] == u && p.last() == v;
    let q = choose|q: Seq<u64>| #[trigger] g.is_path(q) && q.len() >= 1 && q[0] == v && q.last() == w;
    lemma_path_concat(g, p, q);
    let r = p + q.drop_first();
    assert(g.is_path(r) && r.len() >= 1 && r[0] == u && r.last() == w);
}

proof fn lemma_closed_along(g: GraphView, c: Set<u64>, p: Seq<u64>, i: int)
    requires
        forall|x: u64, y: u64| #[trigger] c.contains(x) && #[trigger] g.step(x, y) ==> c.contains(y),
        g.is_path(p),
        0 <= i < p.len(),
        c.contains(p[0]),
    ensures
        c.contains(p[i]),
    decreases i,
{
    if i > 0 {
        lemma_closed_along(g, c, p, i - 1);
        assert(g.link(p, i - 1));
    }
}

/// A set closed under steps contains everything reachable from its members.
pub proof fn lemma_closed_contains_reached(g: GraphView, c: Set<u64>, u: u64, v: u64)
    requires
        forall|x: u64, y: u64| #[trigger] c.contains(x) && #[trigger] g.step(x, y) ==> c.contains(y),
        c.contains(u),
        g.reaches(u, v),
    ensures
        c.contains(v),
{
    let p = choose|p: Seq<u64>| #[trigger] g.is_path(p) && p.len() >= 1 && p[0] == u && p.last() == v;
    lemma_closed_along(g, c, p, p.len() - 1);
}

/// Steps in the graph with one more hyperedge are the old steps plus the
/// steps from each new source to each new destination.
pub proof fn lemma_with_edge_step(g: GraphView, s: Seq<u64>, d: Seq<u64>, u: u64, v: u64)
    ensures
        g.with_edge(s, d).step(u, v) <==> (g.step(u, v) || (s.contains(u) && d.contains(v))),
{
    let h = g.with_edge(s, d);
    let n = g.edges.len() as int;
    if g.step(u, v) {
        let e = choose|e: int|
            #![trigger g.edges[e].sources.contains(u), g.edges[e].destinations.contains(v)]
            g.edge_alive(e) && g.edges[e].sources.contains(u) && g.edges[e].destinations.contains(v);
        assert(h.edges[e] == g.edges[e]);
        assert(h.edge_alive(e) && h.edges[e].sources.contains(u) && h.edges[e].destinations.contains(v));
    }
    if s.contains(u) && d.contains(v) {
        assert(h.edges[n].sources == s);
        assert(h.edge_alive(n) && h.edges[n].sources.contains(u) && h.edges[n].destinations.contains(v));
    }
    if h.step(u, v) {
        let e = choose|e: int|
            #![trigger h.edges[e].sources.contains(u), h.edges[e].destinations.contains(v)]
            h.edge_alive(e) && h.edges[e].sources.contains(u) && h.edges[e].destinations.contains(v);
        if e < n {
            assert(h.edges[e] == g.edges[e]);
            assert(g.edge_alive(e) && g.edges[e].sources.contains(u) && g.edges[e].destinations.contains(v));
        }
    }
}

/// Walks of a graph stay walks when a hyperedge is added.
pub proof fn lemma_path_with_edge(g: GraphView, s: Seq<u64>, d: Seq<u64>, p: Seq<u64>)
    requires
        g.is_path(p),
    ensures
        g.with_edge(s, d).is_path(p),
{
    let h = g.with_edge(s, d);
    assert forall|i: int| 0 <= i < p.len() - 1 implies #[trigger] h.link(p, i) by {
        assert(g.link(p, i));
        lemma_with_edge_step(g, s, d, p[i], p[i + 1]);
    }
}

proof fn first_foreign_link(g: GraphView, h: GraphView, p: Seq<u64>, i: int) -> (k: int)
    requires
        0 <= i <= p.len() - 1,
        forall|j: int| 0 <= j < i ==> #[trigger] g.link(p, j),
        exists|j: int| i <= j < p.len() - 1 && !#[trigger] g.link(p, j),
    ensures
        i <= k < p.len() - 1,
        !g.link(p, k),
        forall|j: int| 0 <= j < k ==> #[trigger] g.link(p, j),
    decreases p.len() - i,
{
    if !g.link(p, i) {
        i
    } else {
        first_foreign_link(g, h, p, i + 1)
    }
}

proof fn last_foreign_link(g: GraphView, p: Seq<u64>, i: int) -> (k: int)
    requires
        -1 <= i < p.len() - 1,
        forall|j: int| i < j < p.len() - 1 ==> #[trigger] g.link(p, j),
        exists|j: int| 0 <= j <= i && !#[trigger] g.link(p, j),
    ensures
        0 <= k <= i,
        !g.link(p, k),
        forall|j: int| k < j < p.len() - 1 ==> #[trigger] g.link(p, j),
    decreases i + 1,
{
    if !g.link(p, i) {
        i
    } else {
        last_foreign_link(g, p, i - 1)
    }
}

/// In an acyclic graph, adding a hyperedge from `s` to `d` closes a cycle
/// exactly when some new destination already reaches some new source.
pub proof fn lemma_cycle_iff_reach(g: GraphView, s: Seq<u64>, d: Seq<u64>)
    requires
        g.acyclic(),
    ensures
        !g.with_edge(s, d).acyclic() <==> exists|a: u64, b: u64|
            #![trigger s.contains(a), d.contains(b)]
            s.contains(a) && d.contains(b) && g.reaches(b, a),
{
    let h = g.with_edge(s, d);
    if exists|a: u64, b: u64|
        #![trigger s.contains(a), d.contains(b)]
        s.contains(a) && d.contains(b) && g.reaches(b, a) {
        let (a, b) = choose|a: u64, b: u64|
            #![trigger s.contains(a), d.contains(b)]
            s.contains(a) && d.contains(b) && g.reaches(b, a);
        let p = choose|p: Seq<u64>| #[trigger] g.is_path(p) && p.len() >= 1 && p[0] == b && p.last() == a;
        lemma_path_with_edge(g, s, d, p);
        let q = seq![a] + p;
        assert forall|i: int| 0 <= i < q.len() - 1 implies #[trigger] h.link(q, i) by {
            if i == 0 {
                lemma_with_edge_step(g, s, d, a, b);
            } else {
                assert(h.link(p, i - 1));
            }
        }
        assert(h.is_path(q) && q.len() >= 2);
        assert(q.last() == a);
    }
    if !h.acyclic() {
        let p = choose|p: Seq<u64>| #[trigger] h.is_path(p) && p.len() >= 2 && p[0] == p.last();
        if forall|j: int| 0 <= j < p.len() - 1 ==> #[trigger] g.link(p, j) {
            assert(g.is_path(p));
            assert(false);
        }
        let k = first_foreign_link(g, h, p, 0);
        let l = last_foreign_link(g, p, p.len() - 2);
        assert(h.link(p, k));
        lemma_with_edge_step(g, s, d, p[k], p[k + 1]);
        assert(h.link(p, l));
        lemma_with_edge_step(g, s, d, p[l], p[l + 1]);
        let a = p[k];
        let b = p[l + 1];
        assert(s.contains(a) && d.contains(b));
        let head = p.subrange(0, k + 1);
        assert forall|i: int| 0 <= i < head.len() - 1 implies #[trigger] g.link(head, i) by {
            assert(g.link(p, i));
        }
        let tail = p.subrange(l + 1, p.len() as int);
        assert forall|i: int| 0 <= i < tail.len() - 1 implies #[trigger] g.link(tail, i) by {
            assert(g.link(p, l + 1 + i));
        }
        assert(g.is_path(tail) && tail.len() >= 1 && tail[0] == b && tail.last() == p[0]);
        assert(g.reaches(b, p[0]));
        assert(g.is_path(head) && head.len() >= 1 && head[0] == p[0] && head.last() == a);
        assert(g.reaches(p[0], a));
        lemma_reaches_trans(g, b, p[0], a);
    }
}

} // verus!
