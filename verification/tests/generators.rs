use asm_engine::errors::AsmError;
use asm_engine::generators::{
    balance_round, balanced_partition, bounded_degree_attempt, gen_bounded_degree, gen_quasi_regular, is_soft_error,
    overlaps,
};
use asm_engine::flags::HypergraphConfig;
use asm_engine::hypergraph::HypergraphImpl;
use asm_engine::hash::canonical_hash;
use asm_engine::flags::KUniformity;
use asm_engine::ids::NodeId;
use rand::rngs::StdRng;
use rand::SeedableRng;

#[test]
fn partition_splits_uniformity() {
    assert_eq!(balanced_partition(0), (1, 1));
    assert_eq!(balanced_partition(2), (1, 1));
    assert_eq!(balanced_partition(5), (2, 3));
    assert_eq!(balanced_partition(6), (3, 3));
}

#[test]
fn soft_errors_and_overlaps() {
    assert!(is_soft_error(&AsmError::DuplicateEdge));
    assert!(is_soft_error(&AsmError::WouldCreateCycle));
    assert!(is_soft_error(&AsmError::OutDegreeCap { node: 0, cap: 1, attempted: 2 }));
    assert!(!is_soft_error(&AsmError::EmptyGraph));
    let ids = |v: &[u64]| v.iter().map(|&r| NodeId::from_raw(r)).collect::<Vec<_>>();
    assert!(overlaps(&ids(&[1, 4, 9]), &ids(&[2, 9])));
    assert!(!overlaps(&ids(&[1, 4, 9]), &ids(&[2, 3, 10])));
    assert!(!overlaps(&ids(&[]), &ids(&[2])));
}

#[test]
fn bounded_degree_graphs_respect_caps() {
    let mut rng = StdRng::seed_from_u64(11);
    assert_eq!(gen_bounded_degree(0, 3, 4, &mut rng).err(), Some(AsmError::EmptyGraph));
    let graph = gen_bounded_degree(12, 3, 4, &mut rng).unwrap();
    assert_eq!(graph.nodes().len(), 12);
    assert_eq!(graph.config().max_in_degree, Some(3));
    assert_eq!(graph.config().k_uniform, Some(KUniformity::Balanced { sources: 2, destinations: 2 }));
    assert!(!graph.edges().is_empty());
    for node in graph.nodes() {
        assert!(graph.in_degree(node).unwrap() <= 3);
        assert!(graph.out_degree(node).unwrap() <= 3);
    }
    for edge in graph.edges() {
        let s = graph.src_of(edge).unwrap();
        let d = graph.dst_of(edge).unwrap();
        assert_eq!((s.len(), d.len()), (2, 2));
        assert!(s.iter().all(|x| !d.contains(x)));
    }
    let again = gen_bounded_degree(12, 3, 4, &mut StdRng::seed_from_u64(11)).unwrap();
    let first = gen_bounded_degree(12, 3, 4, &mut StdRng::seed_from_u64(11)).unwrap();
    assert_eq!(canonical_hash(&again).unwrap(), canonical_hash(&first).unwrap());
}

#[test]
fn quasi_regular_graphs_stay_valid() {
    let mut rng = StdRng::seed_from_u64(3);
    assert_eq!(gen_quasi_regular(0, 2, 3, &mut rng).err(), Some(AsmError::EmptyGraph));
    let graph = gen_quasi_regular(10, 2, 3, &mut rng).unwrap();
    assert_eq!(graph.nodes().len(), 10);
    for node in graph.nodes() {
        assert!(graph.in_degree(node).unwrap() <= 2);
        assert!(graph.out_degree(node).unwrap() <= 2);
    }
    for edge in graph.edges() {
        assert_eq!(graph.src_of(edge).unwrap().len(), 1);
        assert_eq!(graph.dst_of(edge).unwrap().len(), 2);
    }
}

fn capped_graph(nodes: usize, cap: usize, sources: usize, destinations: usize) -> (HypergraphImpl, Vec<NodeId>) {
    let mut config = HypergraphConfig::default();
    config.max_in_degree = Some(cap);
    config.max_out_degree = Some(cap);
    config.k_uniform = Some(KUniformity::Balanced { sources, destinations });
    let mut graph = HypergraphImpl::new(config);
    let ids = (0..nodes).map(|_| graph.add_node().unwrap()).collect();
    (graph, ids)
}

#[test]
fn generator_attempts_skip_add_and_count_failures() {
    let (mut graph, n) = capped_graph(2, 1, 1, 1);
    // Overlapping draws are skipped: nothing changes, the count stays.
    assert_eq!(bounded_degree_attempt(&mut graph, &[n[0]], &[n[0]], 3, 2), Ok((3, false)));
    assert!(graph.edges().is_empty());
    // A fitting draw adds the hyperedge and resets the count.
    assert_eq!(bounded_degree_attempt(&mut graph, &[n[0]], &[n[1]], 3, 2), Ok((0, false)));
    assert_eq!(graph.edges().len(), 1);
    // A full cap is a soft failure: the count grows, and past 4 * n it stops.
    assert_eq!(bounded_degree_attempt(&mut graph, &[n[0]], &[n[1]], 0, 2), Ok((1, false)));
    assert_eq!(bounded_degree_attempt(&mut graph, &[n[0]], &[n[1]], 8, 2), Ok((9, true)));
    assert_eq!(graph.edges().len(), 1);
}

#[test]
fn balance_rounds_move_load_to_the_lightest_node() {
    let (mut graph, n) = capped_graph(4, 3, 1, 1);
    let e0 = graph.add_hyperedge(&[n[0]], &[n[3]]).unwrap();
    graph.add_hyperedge(&[n[1]], &[n[3]]).unwrap();
    graph.add_hyperedge(&[n[2]], &[n[3]]).unwrap();
    // Busiest node 3 (in-degree 3), lightest node 0 (in-degree 0).
    assert_eq!(balance_round(&mut graph, 5, Some(e0)), Ok(true));
    assert_eq!(balance_round(&mut graph, 1, None), Ok(true));
    // Moving edge 0 -> 3 onto node 0 would close a loop: a soft failure.
    assert_eq!(balance_round(&mut graph, 1, Some(e0)), Ok(false));
    assert_eq!(graph.dst_of(e0).unwrap(), vec![n[3]]);
}

#[test]
fn balance_round_replaces_the_busiest_destination() {
    let (mut graph, n) = capped_graph(4, 3, 1, 1);
    graph.add_hyperedge(&[n[0]], &[n[3]]).unwrap();
    graph.add_hyperedge(&[n[1]], &[n[3]]).unwrap();
    let e2 = graph.add_hyperedge(&[n[2]], &[n[3]]).unwrap();
    assert_eq!(balance_round(&mut graph, 1, Some(e2)), Ok(false));
    assert_eq!(graph.dst_of(e2).unwrap(), vec![n[0]]);
    assert_eq!(graph.in_degree(n[3]).unwrap(), 2);
    assert_eq!(graph.in_degree(n[0]).unwrap(), 1);
}
