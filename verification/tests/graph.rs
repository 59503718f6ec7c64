use asm_engine::errors::AsmError;
use asm_engine::flags::{HypergraphConfig, KUniformity};
use asm_engine::hash::canonical_hash;
use asm_engine::hypergraph::HypergraphImpl;
use asm_engine::ids::{EdgeId, NodeId};
use asm_engine::serialization::{into_graph, snapshot_of};

fn total_config(total: usize) -> HypergraphConfig {
    let mut config = HypergraphConfig::default();
    config.k_uniform = Some(KUniformity::Total { total, min_sources: 1 });
    config
}

#[test]
fn causal_mode_blocks_cycles() {
    let config = total_config(2);
    let mut graph = HypergraphImpl::new(config);

    let a = graph.add_node().unwrap();
    let b = graph.add_node().unwrap();
    let c = graph.add_node().unwrap();

    graph.add_hyperedge(&[a], &[b]).unwrap();
    graph.add_hyperedge(&[b], &[c]).unwrap();
    let err = graph.add_hyperedge(&[c], &[a]).unwrap_err();
    assert!(matches!(err, AsmError::WouldCreateCycle));
    assert_eq!(err.code(), "would-create-cycle");
}

#[test]
fn non_causal_mode_allows_cycles() {
    let mut config = total_config(2);
    config.causal_mode = false;
    let mut graph = HypergraphImpl::new(config);

    let a = graph.add_node().unwrap();
    let b = graph.add_node().unwrap();
    let c = graph.add_node().unwrap();

    graph.add_hyperedge(&[a], &[b]).unwrap();
    graph.add_hyperedge(&[b], &[c]).unwrap();
    graph.add_hyperedge(&[c], &[a]).unwrap();
    assert_eq!(graph.edges().len(), 3);
}

#[test]
fn outbound_cap_enforced() {
    let mut config = total_config(2);
    config.max_out_degree = Some(1);
    config.max_in_degree = Some(2);
    let mut graph = HypergraphImpl::new(config);

    let a = graph.add_node().unwrap();
    let b = graph.add_node().unwrap();
    let c = graph.add_node().unwrap();

    graph.add_hyperedge(&[a], &[b]).unwrap();
    let err = graph.add_hyperedge(&[a], &[c]).unwrap_err();
    match err {
        AsmError::OutDegreeCap { node, cap, .. } => {
            assert_eq!(err.code(), "out-degree-cap");
            assert_eq!(node, a.as_raw());
            assert_eq!(cap, 1);
        }
        other => panic!("unexpected error: {other:?}"),
    }
}

#[test]
fn inbound_cap_enforced() {
    let mut config = total_config(2);
    config.max_out_degree = Some(2);
    config.max_in_degree = Some(1);
    let mut graph = HypergraphImpl::new(config);

    let a = graph.add_node().unwrap();
    let b = graph.add_node().unwrap();
    let c = graph.add_node().unwrap();

    graph.add_hyperedge(&[a], &[c]).unwrap();
    let err = graph.add_hyperedge(&[b], &[c]).unwrap_err();
    match err {
        AsmError::InDegreeCap { node, cap, .. } => {
            assert_eq!(err.code(), "in-degree-cap");
            assert_eq!(node, c.as_raw());
            assert_eq!(cap, 1);
        }
        other => panic!("unexpected error: {other:?}"),
    }
}

#[test]
fn add_remove_and_serialize() {
    let mut config = HypergraphConfig::default();
    config.max_in_degree = Some(8);
    config.max_out_degree = Some(8);
    config.k_uniform = Some(KUniformity::Total { total: 4, min_sources: 1 });
    config.causal_mode = false;

    let mut graph = HypergraphImpl::new(config);
    let n0 = graph.add_node().unwrap();
    let n1 = graph.add_node().unwrap();
    let n2 = graph.add_node().unwrap();
    let n3 = graph.add_node().unwrap();

    let e0 = graph.add_hyperedge(&[n0, n1], &[n2, n3]).unwrap();
    let e1 = graph.add_hyperedge(&[n1, n2], &[n0, n3]).unwrap();

    assert_eq!(graph.nodes().len(), 4);
    assert_eq!(graph.edges().len(), 2);

    let bounds = graph.degree_bounds().unwrap();
    assert_eq!(bounds.max_in_degree, Some(2));
    assert_eq!(bounds.max_out_degree, Some(2));

    let hash_before = canonical_hash(&graph).unwrap();
    let restored = into_graph(snapshot_of(&graph)).unwrap();
    let hash_after = canonical_hash(&restored).unwrap();
    assert_eq!(hash_before, hash_after);

    assert!(matches!(graph.remove_node(n0), Err(AsmError::NodeNotIsolated { .. })));

    graph.remove_hyperedge(e0).unwrap();
    graph.remove_hyperedge(e1).unwrap();

    let e2 = graph.add_hyperedge(&[n0, n1], &[n2, n3]).unwrap();
    assert_eq!(e2.as_raw(), 2);
    graph.remove_hyperedge(e2).unwrap();

    graph.remove_node(n0).unwrap();
}

#[test]
fn endpoints_are_stored_sorted_and_deduplicated() {
    let mut config = total_config(3);
    config.causal_mode = false;
    let mut graph = HypergraphImpl::new(config);
    let nodes: Vec<NodeId> = (0..4).map(|_| graph.add_node().unwrap()).collect();
    let e = graph.add_hyperedge(&[nodes[3], nodes[1], nodes[3]], &[nodes[0]]).unwrap();
    let src: Vec<u64> = graph.src_of(e).unwrap().iter().map(|n| n.as_raw()).collect();
    assert_eq!(src, vec![1, 3]);
    let dst: Vec<u64> = graph.dst_of(e).unwrap().iter().map(|n| n.as_raw()).collect();
    assert_eq!(dst, vec![0]);
}

#[test]
fn graph_errors_name_the_failure() {
    let config = total_config(2);
    let mut graph = HypergraphImpl::new(config);
    let a = graph.add_node().unwrap();
    let b = graph.add_node().unwrap();
    assert_eq!(graph.add_hyperedge(&[], &[b]), Err(AsmError::EmptyEndpoints));
    assert_eq!(
        graph.add_hyperedge(&[a, b], &[b]),
        Err(AsmError::InvalidArity { sources: 2, destinations: 1 })
    );
    assert_eq!(
        graph.add_hyperedge(&[a], &[NodeId::from_raw(9)]),
        Err(AsmError::UnknownNode { node: 9 })
    );
    graph.add_hyperedge(&[a], &[b]).unwrap();
    assert_eq!(graph.add_hyperedge(&[a], &[b]), Err(AsmError::DuplicateEdge));
    assert_eq!(graph.remove_hyperedge(EdgeId::from_raw(5)), Err(AsmError::UnknownEdge { edge: 5 }));
    assert_eq!(AsmError::DuplicateEdge.code(), "duplicate-edge");
    assert_eq!(AsmError::UnknownEdge { edge: 5 }.code(), "unknown-edge");
    assert_eq!(AsmError::InvalidArity { sources: 2, destinations: 1 }.code(), "invalid-arity");
}

#[test]
fn degrees_and_adjacency_follow_edges() {
    let mut config = total_config(3);
    config.causal_mode = false;
    let mut graph = HypergraphImpl::new(config);
    let n: Vec<NodeId> = (0..3).map(|_| graph.add_node().unwrap()).collect();
    let e0 = graph.add_hyperedge(&[n[0]], &[n[1], n[2]]).unwrap();
    let e1 = graph.add_hyperedge(&[n[0], n[1]], &[n[2]]).unwrap();
    assert_eq!(graph.out_degree(n[0]).unwrap(), 2);
    assert_eq!(graph.in_degree(n[2]).unwrap(), 2);
    assert_eq!(graph.in_degree(n[0]).unwrap(), 0);
    assert_eq!(graph.outgoing_edges(n[0]).unwrap(), vec![e0, e1]);
    assert_eq!(graph.incoming_edges(n[1]).unwrap(), vec![e0]);
    assert_eq!(graph.edges_touching(n[1]).unwrap(), vec![e0, e1]);
    let bounds = graph.degree_bounds().unwrap();
    assert_eq!(bounds.min_in_degree, Some(0));
    assert_eq!(bounds.max_in_degree, Some(2));
    assert_eq!(bounds.min_out_degree, Some(0));
    assert_eq!(bounds.max_out_degree, Some(2));
    let empty = HypergraphImpl::new(HypergraphConfig::default());
    assert_eq!(empty.degree_bounds().unwrap().min_in_degree, None);
}

#[test]
fn canonical_hash_ignores_slot_layout() {
    let mut config = total_config(2);
    config.causal_mode = false;
    let mut first = HypergraphImpl::new(config);
    let mut second = HypergraphImpl::new(config);
    let a1: Vec<NodeId> = (0..3).map(|_| first.add_node().unwrap()).collect();
    let a2: Vec<NodeId> = (0..3).map(|_| second.add_node().unwrap()).collect();
    first.add_hyperedge(&[a1[0]], &[a1[1]]).unwrap();
    first.add_hyperedge(&[a1[1]], &[a1[2]]).unwrap();
    second.add_hyperedge(&[a2[1]], &[a2[2]]).unwrap();
    let extra = second.add_hyperedge(&[a2[2]], &[a2[0]]).unwrap();
    second.add_hyperedge(&[a2[0]], &[a2[1]]).unwrap();
    second.remove_hyperedge(extra).unwrap();
    let h1 = canonical_hash(&first).unwrap();
    let h2 = canonical_hash(&second).unwrap();
    assert_eq!(h1, h2);
    assert_eq!(h1.len(), 64);
    assert!(h1.chars().all(|c| c.is_ascii_hexdigit() && !c.is_ascii_uppercase()));
    first.add_node().unwrap();
    assert_ne!(canonical_hash(&first).unwrap(), h1);
}

#[test]
fn add_then_remove_keeps_hash() {
    let mut config = total_config(2);
    config.causal_mode = false;
    let mut graph = HypergraphImpl::new(config);
    let n: Vec<NodeId> = (0..3).map(|_| graph.add_node().unwrap()).collect();
    graph.add_hyperedge(&[n[0]], &[n[1]]).unwrap();
    let before = canonical_hash(&graph).unwrap();
    let e = graph.add_hyperedge(&[n[1]], &[n[2]]).unwrap();
    assert_ne!(canonical_hash(&graph).unwrap(), before);
    graph.remove_hyperedge(e).unwrap();
    assert_eq!(canonical_hash(&graph).unwrap(), before);
}

#[test]
fn snapshot_rebuild_rejects_broken_payloads() {
    let config = total_config(2);
    let mut graph = HypergraphImpl::new(config);
    let a = graph.add_node().unwrap();
    let b = graph.add_node().unwrap();
    graph.add_hyperedge(&[a], &[b]).unwrap();
    let mut snapshot = snapshot_of(&graph);
    snapshot.edges[0].destinations = vec![7];
    assert_eq!(into_graph(snapshot).err(), Some(AsmError::UnknownNode { node: 7 }));
}

#[test]
fn kuniformity_rules() {
    let total = KUniformity::Total { total: 4, min_sources: 2 };
    assert!(total.validate(2, 2));
    assert!(total.validate(3, 1));
    assert!(!total.validate(1, 3));
    assert!(!total.validate(4, 0));
    let balanced = KUniformity::Balanced { sources: 2, destinations: 1 };
    assert!(balanced.validate(2, 1));
    assert!(!balanced.validate(1, 2));
    let limits = asm_engine::flags::DegreeLimits::unlimited();
    assert_eq!(limits.max_in, None);
    assert_eq!(limits.max_out, None);
}

fn le(v: u64) -> Vec<u8> {
    v.to_le_bytes().to_vec()
}

#[test]
fn canonical_encoding_layout() {
    let empty = HypergraphImpl::new(HypergraphConfig::default());
    let mut expected: Vec<u8> = Vec::new();
    expected.extend_from_slice(b"causal");
    expected.extend_from_slice(b"max-in:some");
    expected.extend(le(8));
    expected.extend_from_slice(b"max-out:some");
    expected.extend(le(8));
    expected.extend_from_slice(b"kuniform:balanced");
    expected.extend(le(2));
    expected.extend(le(2));
    expected.extend(2u32.to_le_bytes());
    expected.extend(0u32.to_le_bytes());
    expected.extend(0u32.to_le_bytes());
    expected.extend(le(0));
    expected.extend(le(0));
    assert_eq!(asm_engine::hash::canonical_encoding(&empty), expected);

    let mut config = total_config(2);
    config.max_in_degree = None;
    let mut graph = HypergraphImpl::new(config);
    let a = graph.add_node().unwrap();
    let b = graph.add_node().unwrap();
    graph.add_hyperedge(&[a], &[b]).unwrap();
    let mut expected: Vec<u8> = Vec::new();
    expected.extend_from_slice(b"causal");
    expected.extend_from_slice(b"max-in:none");
    expected.extend_from_slice(b"max-out:some");
    expected.extend(le(8));
    expected.extend_from_slice(b"kuniform:total");
    expected.extend(le(2));
    expected.extend(le(1));
    expected.extend(2u32.to_le_bytes());
    expected.extend(0u32.to_le_bytes());
    expected.extend(0u32.to_le_bytes());
    expected.extend(le(2));
    expected.extend(le(1));
    expected.extend(le(1));
    expected.extend(le(0));
    expected.extend(le(1));
    expected.extend(le(1));
    assert_eq!(asm_engine::hash::canonical_encoding(&graph), expected);
    assert_eq!(
        canonical_hash(&graph).unwrap(),
        asm_engine::host::registry::compute_plugin_hash(&expected)
    );
}
