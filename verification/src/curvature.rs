//! The neighbourhoods that the curvature proxies average over.
use vstd::prelude::*;
use crate::errors::AsmError;
use crate::graph_spec::{EdgeView, GraphView};
use crate::hypergraph::{HypergraphImpl, edge_raw_ids};
use crate::ids::{NodeId, raw_ids, strictly_sorted, insert_sorted, to_node_ids};

verus! {

/// Node `n` is a source or a destination of `edge`.
pub open spec fn touches(edge: EdgeView, n: u64) -> bool {
    edge.sources.contains(n) || edge.destinations.contains(n)
}

/// The neighbours of `n`: the other endpoints of the live hyperedges that
/// touch it.
pub open spec fn neighbour_set(g: GraphView, n: u64) -> Set<u64> {
    Set::new(|m: u64| m != n && exists|e: u64| #[trigger] g.edge_alive(e as int) && touches(g.edges[e as int], n)
        && touches(g.edges[e as int], m))
}

/// The endpoints other than `n` of the hyperedges `es`.
pub open spec fn others_of(g: GraphView, es: Seq<u64>, n: u64) -> Set<u64> {
    Set::new(|m: u64| m != n && exists|k: int| 0 <= k < es.len() && #[trigger] touches(g.edges[es[k] as int], m))
}

/// Adds to a sorted id list the ids of `ids` other than `node`.
fn add_others(out: &mut Vec<u64>, ids: &Vec<NodeId>, node: u64)
    requires
        strictly_sorted(old(out)@),
    ensures
        strictly_sorted(final(out)@),
        final(out)@.to_set() == old(out)@.to_set().union(
            Set::new(|m: u64| m != node && raw_ids(ids@).contains(m)),
        ),
{
    let ghost start = out@.to_set();
    let mut i: usize = 0;
    while i < ids.len()
        invariant
            i <= ids@.len(),
            strictly_sorted(out@),
            out@.to_set() == start.union(Set::new(|m: u64| m != node && raw_ids(ids@).take(i as int).contains(m))),
        decreases ids@.len() - i,
    {
        let x = ids[i].raw;
        if x != node {
            insert_sorted(out, x);
        }
        proof {
            let t0 = raw_ids(ids@).take(i as int);
            let t1 = raw_ids(ids@).take(i + 1);
            assert(t1 =~= t0.push(x));
            assert(Set::new(|m: u64| m != node && t1.contains(m)) =~= if x != node {
                Set::new(|m: u64| m != node && t0.contains(m)).insert(x)
            } else {
                Set::new(|m: u64| m != node && t0.contains(m))
            }) by {
                assert forall|m: u64| t1.contains(m) <==> t0.contains(m) || m == x by {
                    if t1.contains(m) {
                        let k = choose|k: int| 0 <= k < t1.len() && t1[k] == m;
                        if k < t0.len() {
                            assert(t0[k] == m);
                        }
                    }
                    if t0.contains(m) {
                        let k = choose|k: int| 0 <= k < t0.len() && t0[k] == m;
                        assert(t1[k] == m);
                    }
                    if m == x {
                        assert(t1[i as int] == m);
                    }
                }
            }
            assert(out@.to_set() =~= start.union(Set::new(|m: u64| m != node && t1.contains(m))));
        }
        i = i + 1;
    }
    proof {
        assert(raw_ids(ids@).take(ids@.len() as int) =~= raw_ids(ids@));
    }
}

/// The neighbours of a live node, in increasing order, each once: the other
/// endpoints of the hyperedges touching it.
pub fn neighbour_ids(graph: &HypergraphImpl, node: NodeId) -> (r: Result<Vec<NodeId>, AsmError>)
    requires
        graph.wf(),
    ensures
        match r {
            Ok(v) => graph@.node_alive(node.raw) && strictly_sorted(raw_ids(v@)) && raw_ids(v@).to_set()
                == neighbour_set(graph@, node.raw),
            Err(e) => !graph@.node_alive(node.raw) && e == AsmError::UnknownNode { node: node.raw },
        },
{
    let ghost g = graph@;
    let n = node.raw;
    let touching = match graph.edges_touching(node) {
        Ok(v) => v,
        Err(e) => return Err(e),
    };
    let ghost es = edge_raw_ids(touching@);
    let mut out: Vec<u64> = Vec::new();
    let mut i: usize = 0;
    while i < touching.len()
        invariant
            graph.wf(),
            graph@ == g,
            i <= touching@.len(),
            es == edge_raw_ids(touching@),
            es.to_set() == g.in_set(n).union(g.out_set(n)),
            strictly_sorted(out@),
            out@.to_set() == others_of(g, es.take(i as int), n),
        decreases touching@.len() - i,
    {
        let e = touching[i];
        proof {
            assert(es[i as int] == e.raw);
            assert(es.to_set().contains(e.raw));
        }
        let sources = match graph.src_of(e) {
            Ok(v) => v,
            Err(err) => return Err(err),
        };
        let destinations = match graph.dst_of(e) {
            Ok(v) => v,
            Err(err) => return Err(err),
        };
        let ghost before = out@.to_set();
        add_others(&mut out, &sources, n);
        add_others(&mut out, &destinations, n);
        proof {
            let t0 = es.take(i as int);
            let t1 = es.take(i + 1);
            assert(t1 =~= t0.push(e.raw));
            let edge = g.edges[e.raw as int];
            assert forall|m: u64| #[trigger] others_of(g, t1, n).contains(m) <==> out@.to_set().contains(m) by {
                if others_of(g, t1, n).contains(m) {
                    let k = choose|k: int| 0 <= k < t1.len() && #[trigger] touches(g.edges[t1[k] as int], m);
                    if k < t0.len() {
                        assert(t0[k] == t1[k]);
                        assert(others_of(g, t0, n).contains(m));
                    } else {
                        assert(t1[k] == e.raw);
                        if edge.sources.contains(m) {
                            assert(raw_ids(sources@).contains(m));
                        } else {
                            assert(raw_ids(destinations@).contains(m));
                        }
                    }
                }
                if out@.to_set().contains(m) {
                    if before.contains(m) {
                        let k = choose|k: int| 0 <= k < t0.len() && #[trigger] touches(g.edges[t0[k] as int], m);
                        assert(t1[k] == t0[k]);
                    } else {
                        assert(touches(g.edges[t1[i as int] as int], m));
                    }
                }
            }
            assert(out@.to_set() =~= others_of(g, t1, n));
        }
        i = i + 1;
    }
    proof {
        assert(es.take(es.len() as int) =~= es);
        assert forall|m: u64| #[trigger] neighbour_set(g, n).contains(m) <==> others_of(g, es, n).contains(m) by {
            if neighbour_set(g, n).contains(m) {
                let e = choose|e: u64| #[trigger] g.edge_alive(e as int) && touches(g.edges[e as int], n)
                    && touches(g.edges[e as int], m);
                if g.edges[e as int].sources.contains(n) {
                    assert(g.out_set(n).contains(e));
                } else {
                    assert(g.in_set(n).contains(e));
                }
                assert(es.to_set().contains(e));
                let k = choose|k: int| 0 <= k < es.len() && es[k] == e;
                assert(touches(g.edges[es[k] as int], m));
            }
            if others_of(g, es, n).contains(m) {
                let k = choose|k: int| 0 <= k < es.len() && #[trigger] touches(g.edges[es[k] as int], m);
                let e = es[k];
                assert(es.to_set().contains(e));
                assert(g.edge_alive(e as int) && touches(g.edges[e as int], n) && touches(g.edges[e as int], m));
            }
        }
        assert(out@.to_set() =~= neighbour_set(g, n));
    }
    let ids = to_node_ids(&out);
    Ok(ids)
}

/// Checks that a curvature proxy runs at least one averaging round.
pub fn check_iterations(iterations: u32) -> (r: Result<(), AsmError>)
    ensures
        r == if iterations == 0 {
            Err::<(), AsmError>(AsmError::ZeroIterations)
        } else {
            Ok(())
        },
{
    if iterations == 0 {
        return Err(AsmError::ZeroIterations);
    }
    Ok(())
}

} // verus!
