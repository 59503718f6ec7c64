use asm_engine::curvature::{check_iterations, neighbour_ids};
use asm_engine::errors::AsmError;
use asm_engine::flags::{HypergraphConfig, KUniformity};
use asm_engine::hypergraph::HypergraphImpl;
use asm_engine::ids::NodeId;
use asm_engine::interaction::{check_fit_inputs, check_measure_inputs};

#[test]
fn neighbours_are_the_other_endpoints_once() {
    let mut config = HypergraphConfig::default();
    config.causal_mode = false;
    config.k_uniform = Some(KUniformity::Total { total: 3, min_sources: 1 });
    let mut graph = HypergraphImpl::new(config);
    let n: Vec<NodeId> = (0..5).map(|_| graph.add_node().unwrap()).collect();
    graph.add_hyperedge(&[n[0]], &[n[2], n[1]]).unwrap();
    graph.add_hyperedge(&[n[3], n[1]], &[n[0]]).unwrap();
    assert_eq!(neighbour_ids(&graph, n[0]).unwrap(), vec![n[1], n[2], n[3]]);
    assert_eq!(neighbour_ids(&graph, n[2]).unwrap(), vec![n[0], n[1]]);
    assert_eq!(neighbour_ids(&graph, n[4]).unwrap(), Vec::<NodeId>::new());
    assert_eq!(neighbour_ids(&graph, NodeId::from_raw(9)), Err(AsmError::UnknownNode { node: 9 }));
}

#[test]
fn input_checks_name_the_missing_input() {
    assert_eq!(check_iterations(0), Err(AsmError::ZeroIterations));
    assert_eq!(check_iterations(3), Ok(()));
    assert_eq!(check_measure_inputs(0, 0), Err(AsmError::EmptyTrajectory));
    assert_eq!(check_measure_inputs(4, 0), Err(AsmError::ZeroBins));
    assert_eq!(check_measure_inputs(4, 8), Ok(()));
    assert_eq!(check_fit_inputs(0, 0), Err(AsmError::InsufficientObservables));
    assert_eq!(check_fit_inputs(0, 2), Ok(()));
    assert_eq!(AsmError::ZeroBins.code(), "zero-bins");
}
