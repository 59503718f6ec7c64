use asm_engine::errors::AsmError;
use asm_engine::flags::{HypergraphConfig, KUniformity};
use asm_engine::hash::canonical_hash;
use asm_engine::hypergraph::HypergraphImpl;
use asm_engine::ids::NodeId;
use asm_engine::rewire::{
    rebalance_edge_targets, rewire_resource_balanced, rewire_resource_balanced_dry_run,
    rewire_retarget, rewire_retarget_dry_run, rewire_swap_targets, rewire_swap_targets_dry_run,
    RewireDryRun,
};
use rand::rngs::StdRng;
use rand::SeedableRng;

fn assert_invariants(graph: &HypergraphImpl) {
    let mut signatures = std::collections::BTreeSet::new();
    for edge_id in graph.edges() {
        let endpoints = graph.hyperedge(edge_id).unwrap();
        let mut src = endpoints.sources.to_vec();
        src.sort_by_key(|id| id.as_raw());
        src.dedup();
        let mut dst = endpoints.destinations.to_vec();
        dst.sort_by_key(|id| id.as_raw());
        dst.dedup();
        assert_eq!(src.len(), endpoints.sources.len());
        assert_eq!(dst.len(), endpoints.destinations.len());
        assert!(signatures.insert((src.clone(), dst.clone())));
    }
    if let Some(cap) = graph.config().max_out_degree {
        for node in graph.nodes() {
            assert!(graph.out_degree(node).unwrap() <= cap);
        }
    }
    if let Some(cap) = graph.config().max_in_degree {
        for node in graph.nodes() {
            assert!(graph.in_degree(node).unwrap() <= cap);
        }
    }
}

fn balanced_graph() -> (HypergraphImpl, Vec<NodeId>) {
    let mut config = HypergraphConfig::default();
    config.max_in_degree = Some(4);
    config.max_out_degree = Some(4);
    config.k_uniform = Some(KUniformity::Balanced { sources: 2, destinations: 2 });
    config.causal_mode = false;
    let mut graph = HypergraphImpl::new(config);
    let nodes: Vec<_> = (0..6).map(|_| graph.add_node().unwrap()).collect();
    (graph, nodes)
}

#[test]
fn rewiring_moves_preserve_structure() {
    let (mut graph, nodes) = balanced_graph();
    let e0 = graph.add_hyperedge(&[nodes[0], nodes[1]], &[nodes[2], nodes[3]]).unwrap();
    let e1 = graph.add_hyperedge(&[nodes[1], nodes[2]], &[nodes[3], nodes[4]]).unwrap();
    let e2 = graph.add_hyperedge(&[nodes[2], nodes[3]], &[nodes[4], nodes[5]]).unwrap();

    assert_invariants(&graph);
    let initial_hash = canonical_hash(&graph).unwrap();

    let outcome = rewire_swap_targets(&mut graph, e0, e1).unwrap();
    assert!(outcome.changed);
    assert_invariants(&graph);
    match rewire_swap_targets_dry_run(&graph, e1, e2) {
        RewireDryRun::Valid { .. } => {}
        other => panic!("unexpected validator result: {other:?}"),
    }

    let retarget = rewire_retarget(&mut graph, e2, &[nodes[4]], &[nodes[0]]).unwrap();
    assert!(retarget.changed);
    assert_invariants(&graph);
    match rewire_retarget_dry_run(&graph, e2, &[nodes[0]], &[nodes[5]]) {
        RewireDryRun::Invalid(err) => {
            assert_eq!(err.code(), "invalid-arity");
        }
        other => panic!("unexpected validator result: {other:?}"),
    }

    let mut rng = StdRng::seed_from_u64(7);
    let resource = rewire_resource_balanced(&mut graph, nodes[1], &mut rng).unwrap();
    if resource.changed {
        assert_invariants(&graph);
    }
    let dry = rewire_resource_balanced_dry_run(&graph, nodes[1], &mut rng);
    match dry {
        RewireDryRun::Valid { .. } | RewireDryRun::Invalid(_) => {}
    }

    let final_hash = canonical_hash(&graph).unwrap();
    assert_ne!(initial_hash, final_hash);
}

#[test]
fn swapping_twice_restores_hash() {
    let (mut graph, nodes) = balanced_graph();
    let e0 = graph.add_hyperedge(&[nodes[0], nodes[1]], &[nodes[2], nodes[3]]).unwrap();
    let e1 = graph.add_hyperedge(&[nodes[1], nodes[2]], &[nodes[3], nodes[4]]).unwrap();
    let before = canonical_hash(&graph).unwrap();
    let first = rewire_swap_targets(&mut graph, e0, e1).unwrap();
    assert!(first.changed);
    assert_ne!(first.hash, before);
    let dst: Vec<u64> = graph.dst_of(e0).unwrap().iter().map(|n| n.as_raw()).collect();
    assert_eq!(dst, vec![3, 4]);
    let second = rewire_swap_targets(&mut graph, e0, e1).unwrap();
    assert!(second.changed);
    assert_eq!(second.hash, before);
    let same = rewire_swap_targets(&mut graph, e0, e0).unwrap();
    assert!(!same.changed);
    assert_eq!(same.hash, before);
}

#[test]
fn failed_moves_leave_graph_unchanged() {
    let (mut graph, nodes) = balanced_graph();
    let e0 = graph.add_hyperedge(&[nodes[0], nodes[1]], &[nodes[2], nodes[3]]).unwrap();
    let before = canonical_hash(&graph).unwrap();
    assert_eq!(
        rewire_retarget(&mut graph, e0, &[nodes[5]], &[]).err(),
        Some(AsmError::MissingDestination { edge: e0.as_raw(), node: 5 })
    );
    assert_eq!(
        rewire_retarget(&mut graph, e0, &[], &[NodeId::from_raw(40)]).err(),
        Some(AsmError::UnknownNode { node: 40 })
    );
    assert_eq!(
        rewire_retarget(&mut graph, e0, &[nodes[2], nodes[3]], &[]).err(),
        Some(AsmError::EmptyDestinations)
    );
    let noop = rewire_retarget(&mut graph, e0, &[nodes[2]], &[nodes[2]]).unwrap();
    assert!(!noop.changed);
    assert_eq!(
        rewire_swap_targets(&mut graph, e0, asm_engine::ids::EdgeId::from_raw(9)).err(),
        Some(AsmError::UnknownEdge { edge: 9 })
    );
    assert_eq!(canonical_hash(&graph).unwrap(), before);
    match rewire_retarget_dry_run(&graph, e0, &[nodes[2]], &[nodes[4]]) {
        RewireDryRun::Valid { hash_preview: Some(h) } => assert_ne!(h, before),
        other => panic!("unexpected validator result: {other:?}"),
    }
    assert_eq!(canonical_hash(&graph).unwrap(), before);
}

#[test]
fn rebalancing_moves_load_to_lightest_node() {
    let mut config = HypergraphConfig::default();
    config.k_uniform = Some(KUniformity::Total { total: 3, min_sources: 1 });
    config.causal_mode = false;
    let mut graph = HypergraphImpl::new(config);
    let n: Vec<NodeId> = (0..4).map(|_| graph.add_node().unwrap()).collect();
    let e0 = graph.add_hyperedge(&[n[0]], &[n[1], n[2]]).unwrap();
    graph.add_hyperedge(&[n[3]], &[n[1], n[2]]).unwrap();
    graph.add_hyperedge(&[n[0], n[3]], &[n[1]]).unwrap();
    let changed = rebalance_edge_targets(&mut graph, e0).unwrap();
    assert!(changed);
    let dst: Vec<u64> = graph.dst_of(e0).unwrap().iter().map(|x| x.as_raw()).collect();
    assert_eq!(dst, vec![0, 2]);
    let mut rng = StdRng::seed_from_u64(1);
    assert_eq!(
        rewire_resource_balanced(&mut graph, NodeId::from_raw(11), &mut rng).err(),
        Some(AsmError::UnknownNode { node: 11 })
    );
    let quiet = rewire_resource_balanced(&mut graph, n[1], &mut rng).unwrap();
    assert!(!quiet.changed);
}
