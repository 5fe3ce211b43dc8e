use kyopro_lib::graph::min_cost_flow::MinCostFlow;

fn sample() -> MinCostFlow {
    let mut f = MinCostFlow::new(3);
    f.add_edge(0, 1, 3, 1);
    f.add_edge(1, 2, 2, 2);
    f.add_edge(0, 2, 1, 10);
    f
}

#[test]
fn min_cost_flow_all() {
    let mut f = sample();
    assert_eq!(f.run(0, 2, 10), (3, 16));
    // nothing is left to send
    assert_eq!(f.run(0, 2, 10), (0, 0));
}

#[test]
fn min_cost_flow_limited() {
    let mut f = sample();
    assert_eq!(f.run(0, 2, 1), (1, 3));
    assert_eq!(f.run(0, 2, 1), (1, 3));
    assert_eq!(f.run(0, 2, 5), (1, 10));
}

#[test]
fn min_cost_flow_rerouting() {
    // the cheapest second unit cancels part of the first path
    let mut f = MinCostFlow::new(4);
    f.add_edge(0, 1, 1, 1);
    f.add_edge(0, 2, 1, 5);
    f.add_edge(1, 2, 1, 1);
    f.add_edge(1, 3, 1, 5);
    f.add_edge(2, 3, 1, 1);
    assert_eq!(f.run(0, 3, 2), (2, 12));
}

#[test]
fn min_cost_flow_unreachable() {
    let mut f = MinCostFlow::new(3);
    f.add_edge(0, 1, 5, 2);
    assert_eq!(f.run(0, 2, 4), (0, 0));
    assert_eq!(f.run(0, 1, 0), (0, 0));
}

use kyopro_lib::graph::max_flow::Dinic;

#[test]
fn dinic_max_flow() {
    let mut d = Dinic::new(4);
    d.add_edge(0, 1, 3);
    d.add_edge(0, 2, 2);
    d.add_edge(1, 2, 5);
    d.add_edge(1, 3, 2);
    d.add_edge(2, 3, 3);
    let (f, flow) = d.run(0, 3);
    assert_eq!(f, 5);
    assert_eq!(flow.len(), 5);
    // conservation at the inner vertices
    assert_eq!(flow[0], flow[2] + flow[3]);
    assert_eq!(flow[1] + flow[2], flow[4]);
    for (i, &c) in [3, 2, 5, 2, 3].iter().enumerate() {
        assert!(0 <= flow[i] && flow[i] <= c);
    }
}

#[test]
fn dinic_disconnected() {
    let mut d = Dinic::new(3);
    d.add_edge(0, 1, 7);
    let (f, flow) = d.run(0, 2);
    assert_eq!(f, 0);
    assert_eq!(flow, vec![0]);
}
