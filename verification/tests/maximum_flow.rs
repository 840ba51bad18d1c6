use cp_rust::graphs::maximum_flow::{DinicMaxFlow, EdmondsKarpMaxFlow};
use cp_rust::graphs::residual_network::{Edge, FlowError, ResidualNetwork};

#[test]
fn test_edmonds_karp_maxflow() {
    let mut edmonds_karp = EdmondsKarpMaxFlow::new(5);
    edmonds_karp.add_edge(0, 1, 3).unwrap();
    edmonds_karp.add_edge(0, 2, 2).unwrap();
    edmonds_karp.add_edge(1, 2, 2).unwrap();
    edmonds_karp.add_edge(1, 3, 3).unwrap();
    edmonds_karp.add_edge(2, 4, 2).unwrap();
    edmonds_karp.add_edge(3, 4, 2).unwrap();

    let res = edmonds_karp.maxflow(0, 4).unwrap();

    assert_eq!(res, 4);

    let mut edmonds_karp = EdmondsKarpMaxFlow::new(6);
    edmonds_karp.add_edge(0, 1, 7).unwrap();
    edmonds_karp.add_edge(0, 4, 4).unwrap();
    edmonds_karp.add_edge(1, 2, 5).unwrap();
    edmonds_karp.add_edge(1, 3, 3).unwrap();
    edmonds_karp.add_edge(2, 5, 8).unwrap();
    edmonds_karp.add_edge(3, 2, 3).unwrap();
    edmonds_karp.add_edge(3, 5, 5).unwrap();
    edmonds_karp.add_edge(4, 1, 3).unwrap();
    edmonds_karp.add_edge(4, 3, 2).unwrap();

    let res = edmonds_karp.maxflow(0, 5).unwrap();
    assert_eq!(res, 10);

    let res = edmonds_karp.maxflow(1, 5).unwrap();
    assert_eq!(res, 8);

    let res = edmonds_karp.maxflow(1, 2).unwrap();
    assert_eq!(res, 8);

    let res = edmonds_karp.maxflow(4, 3).unwrap();
    assert_eq!(res, 5);

    let mut edmonds_karp = EdmondsKarpMaxFlow::new(4);
    edmonds_karp.add_edge(0, 1, 20).unwrap();
    edmonds_karp.add_edge(0, 2, 10).unwrap();
    edmonds_karp.add_edge(1, 2, 5).unwrap();
    edmonds_karp.add_edge(1, 3, 10).unwrap();
    edmonds_karp.add_edge(2, 3, 20).unwrap();

    let res = edmonds_karp.maxflow(0, 3);
    assert_eq!(res.unwrap(), 25);
}

#[test]
fn test_dinic_maxflow() {
    let mut dinic = DinicMaxFlow::new(0, 4, 5).unwrap();
    dinic.add_edge(0, 1, 3).unwrap();
    dinic.add_edge(0, 2, 2).unwrap();
    dinic.add_edge(1, 2, 2).unwrap();
    dinic.add_edge(1, 3, 3).unwrap();
    dinic.add_edge(2, 4, 2).unwrap();
    dinic.add_edge(3, 4, 2).unwrap();

    let res = dinic.maxflow();

    assert_eq!(res, 4);

    let mut dinic = DinicMaxFlow::new(0, 5, 6).unwrap();
    dinic.add_edge(0, 1, 7).unwrap();
    dinic.add_edge(0, 4, 4).unwrap();
    dinic.add_edge(1, 2, 5).unwrap();
    dinic.add_edge(1, 3, 3).unwrap();
    dinic.add_edge(2, 5, 8).unwrap();
    dinic.add_edge(3, 2, 3).unwrap();
    dinic.add_edge(3, 5, 5).unwrap();
    dinic.add_edge(4, 1, 3).unwrap();
    dinic.add_edge(4, 3, 2).unwrap();

    let res = dinic.maxflow();
    assert_eq!(res, 10);

    dinic.update_source_and_sink(1, 5).unwrap();
    let res = dinic.maxflow();
    assert_eq!(res, 8);

    dinic.update_source_and_sink(1, 2).unwrap();
    let res = dinic.maxflow();
    assert_eq!(res, 8);

    dinic.update_source_and_sink(4, 3).unwrap();
    let res = dinic.maxflow();
    assert_eq!(res, 5);

    let mut dinic = DinicMaxFlow::new(0, 3, 4).unwrap();
    dinic.add_edge(0, 1, 20).unwrap();
    dinic.add_edge(0, 2, 10).unwrap();
    dinic.add_edge(1, 2, 5).unwrap();
    dinic.add_edge(1, 3, 10).unwrap();
    dinic.add_edge(2, 3, 20).unwrap();

    let res = dinic.maxflow();
    assert_eq!(res, 25);
}

fn diamond_edges() -> Vec<(usize, usize, i64)> {
    vec![(0, 1, 3), (0, 2, 2), (1, 2, 2), (1, 3, 3), (2, 4, 2), (3, 4, 2)]
}

fn net_out(net: &ResidualNetwork, v: usize) -> i64 {
    let mut total = 0;
    for e in 0..net.edge_count() {
        if net.edge(e ^ 1).to == v {
            total += net.edge(e).flow;
        }
    }
    total
}

fn assert_feasible(net: &ResidualNetwork, source: usize, sink: usize, value: i64) {
    for e in 0..net.edge_count() {
        let edge = net.edge(e);
        let mate = net.edge(e ^ 1);
        assert!(edge.flow <= edge.capacity);
        assert_eq!(edge.flow, -mate.flow);
        if e % 2 == 0 {
            assert!(0 <= edge.flow);
        }
    }
    for v in 0..net.vertex_count() {
        if v != source && v != sink {
            assert_eq!(net_out(net, v), 0);
        }
    }
    assert_eq!(net_out(net, source), value);
    assert_eq!(net_out(net, sink), -value);
}

#[test]
fn edge_new_has_no_flow() {
    let edge = Edge::new(3, 7);
    assert_eq!(edge.to, 3);
    assert_eq!(edge.capacity, 7);
    assert_eq!(edge.flow, 0);
}

#[test]
fn network_add_edge_stores_a_pair() {
    let mut net = ResidualNetwork::new(3);
    assert_eq!(net.vertex_count(), 3);
    assert_eq!(net.edge_count(), 0);
    net.add_edge(0, 2, 9).unwrap();
    assert_eq!(net.edge_count(), 2);
    let forward = net.edge(0);
    let reverse = net.edge(1);
    assert_eq!((forward.to, forward.capacity, forward.flow), (2, 9, 0));
    assert_eq!((reverse.to, reverse.capacity, reverse.flow), (0, 0, 0));
    assert_eq!(net.out_degree(0), 1);
    assert_eq!(net.out_degree(1), 0);
    assert_eq!(net.out_degree(2), 1);
    assert_eq!(net.out_edge(0, 0), 0);
    assert_eq!(net.out_edge(2, 0), 1);
    assert_eq!(net.residual(0), 9);
    assert_eq!(net.residual(1), 0);
}

#[test]
fn network_self_loop_lists_both_edges() {
    let mut net = ResidualNetwork::new(2);
    net.add_edge(1, 1, 4).unwrap();
    assert_eq!(net.out_degree(1), 2);
    assert_eq!(net.out_edge(1, 0), 0);
    assert_eq!(net.out_edge(1, 1), 1);
}

#[test]
fn network_push_and_reset() {
    let mut net = ResidualNetwork::new(2);
    net.add_edge(0, 1, 5).unwrap();
    net.push(0, 3);
    assert_eq!(net.edge(0).flow, 3);
    assert_eq!(net.edge(1).flow, -3);
    assert_eq!(net.residual(0), 2);
    assert_eq!(net.residual(1), 3);
    net.push(1, 1);
    assert_eq!(net.edge(0).flow, 2);
    assert_eq!(net.edge(1).flow, -2);
    net.reset();
    assert_eq!(net.edge(0).flow, 0);
    assert_eq!(net.edge(1).flow, 0);
    assert_eq!(net.edge(0).capacity, 5);
}

#[test]
fn add_edge_out_of_bounds_leaves_network_unchanged() {
    let mut net = ResidualNetwork::new(5);
    net.add_edge(0, 1, 1).unwrap();
    assert_eq!(net.add_edge(0, 10, 5), Err(FlowError::OutOfBounds));
    assert_eq!(net.add_edge(10, 0, 5), Err(FlowError::OutOfBounds));
    assert_eq!(net.add_edge(0, 5, 5), Err(FlowError::OutOfBounds));
    assert_eq!(net.edge_count(), 2);

    let mut edmonds_karp = EdmondsKarpMaxFlow::new(5);
    assert_eq!(edmonds_karp.add_edge(0, 10, 5), Err(FlowError::OutOfBounds));
    assert_eq!(edmonds_karp.network().edge_count(), 0);

    let mut dinic = DinicMaxFlow::new(0, 4, 5).unwrap();
    assert_eq!(dinic.add_edge(0, 10, 5), Err(FlowError::OutOfBounds));
    assert_eq!(dinic.network().edge_count(), 0);
}

#[test]
fn error_messages() {
    assert_eq!(FlowError::OutOfBounds.message(), "Provided vertices are out of bounds");
    assert_eq!(FlowError::BrokenPath.message(), "No path from source to sink");
}

#[test]
fn edmonds_karp_rejects_bad_endpoints() {
    let mut edmonds_karp = EdmondsKarpMaxFlow::new(3);
    edmonds_karp.add_edge(0, 1, 2).unwrap();
    edmonds_karp.add_edge(1, 2, 2).unwrap();
    assert_eq!(edmonds_karp.maxflow(0, 2), Ok(2));
    assert_eq!(edmonds_karp.maxflow(0, 3), Err(FlowError::OutOfBounds));
    assert_eq!(edmonds_karp.maxflow(3, 0), Err(FlowError::OutOfBounds));
    // The refused call left the flow of the last computation in place.
    assert_eq!(edmonds_karp.network().edge(0).flow, 2);
}

#[test]
fn dinic_rejects_bad_endpoints() {
    assert!(matches!(DinicMaxFlow::new(0, 5, 5), Err(FlowError::OutOfBounds)));
    assert!(matches!(DinicMaxFlow::new(5, 0, 5), Err(FlowError::OutOfBounds)));
    assert!(matches!(DinicMaxFlow::new(0, 0, 0), Err(FlowError::OutOfBounds)));
    let mut dinic = DinicMaxFlow::new(0, 2, 3).unwrap();
    assert_eq!(dinic.update_source_and_sink(0, 3), Err(FlowError::OutOfBounds));
    assert_eq!(dinic.source(), 0);
    assert_eq!(dinic.sink(), 2);
    dinic.update_source_and_sink(1, 2).unwrap();
    assert_eq!(dinic.source(), 1);
    assert_eq!(dinic.sink(), 2);
}

#[test]
fn flows_left_behind_are_feasible() {
    let mut edmonds_karp = EdmondsKarpMaxFlow::new(5);
    let mut dinic = DinicMaxFlow::new(0, 4, 5).unwrap();
    for (from, to, capacity) in diamond_edges() {
        edmonds_karp.add_edge(from, to, capacity).unwrap();
        dinic.add_edge(from, to, capacity).unwrap();
    }
    let a = edmonds_karp.maxflow(0, 4).unwrap();
    let b = dinic.maxflow();
    assert_eq!(a, 4);
    assert_eq!(b, 4);
    assert_feasible(edmonds_karp.network(), 0, 4, 4);
    assert_feasible(dinic.network(), 0, 4, 4);
}

#[test]
fn solvers_agree_on_every_pair() {
    let edges: Vec<(usize, usize, i64)> = vec![
        (0, 1, 7),
        (0, 4, 4),
        (1, 2, 5),
        (1, 3, 3),
        (2, 5, 8),
        (3, 2, 3),
        (3, 5, 5),
        (4, 1, 3),
        (4, 3, 2),
        (5, 0, 6),
        (2, 2, 9),
        (1, 2, 1),
    ];
    let mut edmonds_karp = EdmondsKarpMaxFlow::new(6);
    let mut dinic = DinicMaxFlow::new(0, 1, 6).unwrap();
    for &(from, to, capacity) in edges.iter() {
        edmonds_karp.add_edge(from, to, capacity).unwrap();
        dinic.add_edge(from, to, capacity).unwrap();
    }
    for source in 0..6 {
        for sink in 0..6 {
            let a = edmonds_karp.maxflow(source, sink).unwrap();
            dinic.update_source_and_sink(source, sink).unwrap();
            let b = dinic.maxflow();
            assert_eq!(a, b);
            if source == sink {
                assert_eq!(a, 0);
            }
            assert_feasible(edmonds_karp.network(), source, sink, a);
            assert_feasible(dinic.network(), source, sink, b);
        }
    }
}

#[test]
fn maxflow_twice_gives_the_same_value() {
    let mut edmonds_karp = EdmondsKarpMaxFlow::new(4);
    let mut dinic = DinicMaxFlow::new(0, 3, 4).unwrap();
    for (from, to, capacity) in [(0, 1, 20), (0, 2, 10), (1, 2, 5), (1, 3, 10), (2, 3, 20)] {
        edmonds_karp.add_edge(from, to, capacity).unwrap();
        dinic.add_edge(from, to, capacity).unwrap();
    }
    assert_eq!(edmonds_karp.maxflow(0, 3), Ok(25));
    assert_eq!(edmonds_karp.maxflow(0, 3), Ok(25));
    assert_eq!(dinic.maxflow(), 25);
    assert_eq!(dinic.maxflow(), 25);
}

#[test]
fn dinic_reuse_after_update() {
    let mut dinic = DinicMaxFlow::new(0, 5, 6).unwrap();
    for (from, to, capacity) in [
        (0, 1, 7),
        (0, 4, 4),
        (1, 2, 5),
        (1, 3, 3),
        (2, 5, 8),
        (3, 2, 3),
        (3, 5, 5),
        (4, 1, 3),
        (4, 3, 2),
    ] {
        dinic.add_edge(from, to, capacity).unwrap();
    }
    let first = dinic.maxflow();
    assert_eq!(first, 10);
    dinic.update_source_and_sink(1, 5).unwrap();
    let second = dinic.maxflow();
    assert_ne!(first, second);
    assert_eq!(second, 8);
}

#[test]
fn unreachable_sink_and_parallel_edges() {
    let mut edmonds_karp = EdmondsKarpMaxFlow::new(4);
    let mut dinic = DinicMaxFlow::new(0, 3, 4).unwrap();
    for (from, to, capacity) in [(0, 1, 5), (0, 1, 6), (1, 0, 2), (2, 3, 9), (1, 1, 3), (0, 1, 0)] {
        edmonds_karp.add_edge(from, to, capacity).unwrap();
        dinic.add_edge(from, to, capacity).unwrap();
    }
    assert_eq!(edmonds_karp.maxflow(0, 3), Ok(0));
    assert_eq!(dinic.maxflow(), 0);
    assert_eq!(edmonds_karp.maxflow(0, 1), Ok(11));
    dinic.update_source_and_sink(0, 1).unwrap();
    assert_eq!(dinic.maxflow(), 11);
    assert_feasible(edmonds_karp.network(), 0, 1, 11);
    assert_feasible(dinic.network(), 0, 1, 11);
}

#[test]
fn large_capacities_do_not_overflow() {
    let big = i64::MAX;
    let mut edmonds_karp = EdmondsKarpMaxFlow::new(3);
    let mut dinic = DinicMaxFlow::new(0, 2, 3).unwrap();
    for (from, to, capacity) in [(0, 1, big), (1, 2, big), (0, 1, big)] {
        edmonds_karp.add_edge(from, to, capacity).unwrap();
        dinic.add_edge(from, to, capacity).unwrap();
    }
    assert_eq!(edmonds_karp.maxflow(0, 2), Ok(big));
    assert_eq!(dinic.maxflow(), big);
}
