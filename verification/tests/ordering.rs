use ctrlsys::pool::schedule::{build_adjacency, cut_adjacency, least_ready_order, precedence_rows};
use ctrlsys::pool::graph::{simulation_order, tarjan_scc, OrderError};
use ctrlsys::pool::link::SystemLink;

fn l(from: usize, to: usize) -> SystemLink {
    SystemLink { from_system_idx: from, to_system_idx: to, to_input_offset: 0, num_bytes: 8 }
}

#[test]
fn chain_is_ordered_source_first() {
    let order = simulation_order(&vec![false, false, false], &vec![l(0, 1), l(1, 2)]).unwrap();
    assert_eq!(order, vec![0, 1, 2]);
}

#[test]
fn reversed_chain_is_ordered_source_first() {
    let order = simulation_order(&vec![false, false, false], &vec![l(2, 1), l(1, 0)]).unwrap();
    assert_eq!(order, vec![2, 1, 0]);
}

#[test]
fn empty_pool_has_empty_order() {
    assert_eq!(simulation_order(&vec![], &vec![]).unwrap(), Vec::<usize>::new());
}

#[test]
fn loop_without_state_is_rejected() {
    match simulation_order(&vec![false, false], &vec![l(0, 1), l(1, 0)]) {
        Err(OrderError::AlgebraicLoop { scc_nodes }) => assert_eq!(scc_nodes, vec![1, 0]),
        Ok(order) => panic!("accepted an algebraic loop: {order:?}"),
    }
}

#[test]
fn self_feeding_system_without_state_is_rejected() {
    match simulation_order(&vec![false], &vec![l(0, 0)]) {
        Err(OrderError::AlgebraicLoop { scc_nodes }) => assert_eq!(scc_nodes, vec![0]),
        Ok(order) => panic!("accepted an algebraic loop: {order:?}"),
    }
}

#[test]
fn self_feeding_stateful_system_is_accepted() {
    assert_eq!(simulation_order(&vec![true], &vec![l(0, 0)]).unwrap(), vec![0]);
}

#[test]
fn source_without_state_runs_first_in_a_loop() {
    assert_eq!(simulation_order(&vec![false, true], &vec![l(0, 1), l(1, 0)]).unwrap(), vec![0, 1]);
    assert_eq!(simulation_order(&vec![true, false], &vec![l(0, 1), l(1, 0)]).unwrap(), vec![1, 0]);
}

#[test]
fn loop_is_placed_after_its_feeder_and_before_its_consumer() {
    // 3 -> {0 <-> 1} -> 2, with 1 stateful
    let links = vec![l(3, 0), l(0, 1), l(1, 0), l(1, 2)];
    let order = simulation_order(&vec![false, true, false, false], &links).unwrap();
    assert_eq!(order, vec![3, 0, 1, 2]);
}

#[test]
fn links_out_of_range_are_ignored() {
    let order = simulation_order(&vec![false, false], &vec![l(1, 0), l(0, 7), l(9, 1)]).unwrap();
    assert_eq!(order, vec![1, 0]);
}

#[test]
fn demo_model_runs_every_producer_before_its_consumers() {
    // filter(0) <- input(1); test(2) <- (input, filter); discrete(3) <- test
    let links = vec![l(1, 0), l(1, 2), l(0, 2), l(2, 3)];
    let order = simulation_order(&vec![false, false, false, false], &links).unwrap();
    assert_eq!(order.len(), 4);
    let pos = |x: usize| order.iter().position(|&y| y == x).unwrap();
    for link in &links {
        assert!(pos(link.from_system_idx) < pos(link.to_system_idx));
    }
}

#[test]
fn second_of_two_disjoint_loops_is_reported() {
    // {0 <-> 1} stateful, {2 <-> 3} pure
    let links = vec![l(0, 1), l(1, 0), l(2, 3), l(3, 2)];
    match simulation_order(&vec![true, false, false, false], &links) {
        Err(OrderError::AlgebraicLoop { mut scc_nodes }) => {
            scc_nodes.sort();
            assert_eq!(scc_nodes, vec![2, 3]);
        }
        Ok(order) => panic!("accepted an algebraic loop: {order:?}"),
    }
}

#[test]
fn tarjan_numbers_components_in_reverse_topological_order() {
    let (comp_of, comps) = tarjan_scc(&vec![vec![1], vec![2], vec![]]);
    assert_eq!(comp_of, vec![2, 1, 0]);
    assert_eq!(comps, vec![vec![2], vec![1], vec![0]]);
}

#[test]
fn tarjan_groups_a_cycle() {
    let (comp_of, comps) = tarjan_scc(&vec![vec![1], vec![2], vec![0, 3], vec![]]);
    assert_eq!(comp_of, vec![1, 1, 1, 0]);
    assert_eq!(comps, vec![vec![3], vec![2, 1, 0]]);
}

#[test]
fn tarjan_of_no_vertices_is_empty() {
    let (comp_of, comps) = tarjan_scc(&vec![]);
    assert!(comp_of.is_empty());
    assert!(comps.is_empty());
}

#[test]
fn adjacency_follows_link_order() {
    let adj = build_adjacency(3, &vec![l(0, 2), l(1, 2), l(0, 1), l(5, 0)]);
    assert_eq!(adj, vec![vec![2, 1], vec![2], vec![]]);
}

#[test]
fn passing_through_inside_a_loop_follows_the_links() {
    // 1 -> 0 -> 2 -> 1, only 2 stateful: 1 feeds 0 within the step
    let links = vec![l(1, 0), l(0, 2), l(2, 1)];
    let order = simulation_order(&vec![false, false, true], &links).unwrap();
    assert_eq!(order, vec![1, 0, 2]);
}

#[test]
fn pure_cycle_sharing_a_component_with_a_stateful_system_is_rejected() {
    // 0 <-> 1 passes through, 1 -> 2 -> 0 goes through stateful 2
    let links = vec![l(0, 1), l(1, 0), l(1, 2), l(2, 0)];
    match simulation_order(&vec![false, false, true], &links) {
        Err(OrderError::AlgebraicLoop { mut scc_nodes }) => {
            scc_nodes.sort();
            assert_eq!(scc_nodes, vec![0, 1]);
        }
        Ok(order) => panic!("accepted an algebraic loop: {order:?}"),
    }
}

#[test]
fn unrelated_systems_go_by_index() {
    assert_eq!(simulation_order(&vec![false, false, false], &vec![]).unwrap(), vec![0, 1, 2]);
    assert_eq!(simulation_order(&vec![false, false, false], &vec![l(0, 1), l(0, 2)]).unwrap(), vec![0, 1, 2]);
    assert_eq!(simulation_order(&vec![false, false, false], &vec![l(2, 0)]).unwrap(), vec![1, 2, 0]);
}

#[test]
fn stateful_producer_outside_the_loop_runs_first() {
    // stateful 1 feeds 0 but shares no loop with it
    assert_eq!(simulation_order(&vec![false, true], &vec![l(1, 0)]).unwrap(), vec![1, 0]);
}

#[test]
fn the_same_pool_gives_the_same_order() {
    let links = vec![l(3, 1), l(1, 2), l(2, 1), l(0, 2)];
    let stateful = vec![false, true, false, false];
    let first = simulation_order(&stateful, &links).unwrap();
    let second = simulation_order(&stateful, &links).unwrap();
    assert_eq!(first, second);
    assert_eq!(first, vec![0, 2, 3, 1]);
}

#[test]
fn cut_drops_the_rows_of_stateful_systems() {
    let adj = vec![vec![1], vec![0, 2], vec![0]];
    assert_eq!(cut_adjacency(&adj, &vec![false, true, false]), vec![vec![1], vec![], vec![0]]);
}

#[test]
fn predecessors_skip_stateful_links_inside_a_loop() {
    // 0 <-> 1 one component (1 stateful), 1 -> 2 leaves it
    let adj = vec![vec![1], vec![0, 2], vec![]];
    let comp_of = vec![1, 1, 0];
    let preds = precedence_rows(&adj, &comp_of, &vec![false, true, false]);
    assert_eq!(preds, vec![vec![], vec![0], vec![1]]);
}

#[test]
fn least_ready_order_stops_at_a_cycle() {
    let preds = vec![vec![1], vec![0], vec![]];
    assert_eq!(least_ready_order(&preds, &vec![false, false, false]), vec![2]);
    let preds = vec![vec![2], vec![], vec![1]];
    assert_eq!(least_ready_order(&preds, &vec![false, false, false]), vec![1, 2, 0]);
}

#[test]
fn least_ready_order_puts_systems_without_state_first() {
    let preds = vec![vec![], vec![], vec![0]];
    assert_eq!(least_ready_order(&preds, &vec![true, false, false]), vec![1, 0, 2]);
}

#[test]
fn stateful_systems_go_last_where_the_links_allow() {
    assert_eq!(simulation_order(&vec![true, false], &vec![]).unwrap(), vec![1, 0]);
    // 0 -> 1 -> 2 -> 0 with 0 and 2 stateful: only 1 -> 2 passes through
    let links = vec![l(0, 1), l(1, 2), l(2, 0)];
    assert_eq!(simulation_order(&vec![true, false, true], &links).unwrap(), vec![1, 0, 2]);
}

#[test]
fn tarjan_lists_a_two_cycle_in_pop_order() {
    let (comp_of, comps) = tarjan_scc(&vec![vec![1], vec![0]]);
    assert_eq!(comp_of, vec![0, 0]);
    assert_eq!(comps, vec![vec![1, 0]]);
}

#[test]
fn first_completed_loop_is_reported_in_pop_order() {
    // two pure loops {0 <-> 1} and {2 <-> 3}; the search completes {0, 1} first
    let links = vec![l(0, 1), l(1, 0), l(2, 3), l(3, 2)];
    match simulation_order(&vec![false, false, false, false], &links) {
        Err(OrderError::AlgebraicLoop { scc_nodes }) => assert_eq!(scc_nodes, vec![1, 0]),
        Ok(order) => panic!("accepted an algebraic loop: {order:?}"),
    }
}
