use orc_sdk::{DagError, Graph, IH, NH, OH};

fn node(g: &mut Graph, n_in: usize, n_out: usize) -> (NH, Vec<IH>, Vec<OH>) {
    let mut ins = vec![IH::default(); n_in];
    let mut outs = vec![OH::default(); n_out];
    let n = g.push_node(&mut ins, &mut outs).unwrap();
    (n, ins, outs)
}

/// Every node once, each after the nodes feeding its inputs.
fn assert_valid_order(g: &Graph, order: &[NH]) {
    assert_eq!(order.len(), g.nodes().len());
    for (pos, n) in order.iter().enumerate() {
        assert_eq!(order.iter().filter(|m| *m == n).count(), 1);
        for i in g.node_inputs(*n) {
            if let Some(o) = g.input_source(i) {
                let d = g.outputs()[o.idx].node;
                let dpos = order.iter().position(|m| *m == d).unwrap();
                assert!(dpos < pos);
            }
        }
    }
}

#[test]
fn topological_order_of_a_chain() {
    let mut g = Graph::default();
    let (a, _, a_out) = node(&mut g, 0, 1);
    let (b, b_in, b_out) = node(&mut g, 1, 1);
    let (c, c_in, _) = node(&mut g, 1, 0);
    g.push_link(a_out[0], b_in[0]).unwrap();
    g.push_link(b_out[0], c_in[0]).unwrap();
    let order = g.topological_order().unwrap();
    assert_eq!(order, vec![a, b, c]);
}

#[test]
fn topological_order_walks_back_from_each_node() {
    // Nodes pushed consumer first: C(0) <- B(1) <- A(2).
    let mut g = Graph::default();
    let (c, c_in, _) = node(&mut g, 1, 0);
    let (b, b_in, b_out) = node(&mut g, 1, 1);
    let (a, _, a_out) = node(&mut g, 0, 1);
    g.push_link(b_out[0], c_in[0]).unwrap();
    g.push_link(a_out[0], b_in[0]).unwrap();
    let order = g.topological_order().unwrap();
    assert_eq!(order, vec![a, b, c]);
}

#[test]
fn topological_order_of_a_diamond_and_a_lone_node() {
    let mut g = Graph::default();
    let (d, d_in, _) = node(&mut g, 2, 0);
    let (b, b_in, b_out) = node(&mut g, 1, 1);
    let (c, c_in, c_out) = node(&mut g, 1, 1);
    let (a, _, a_out) = node(&mut g, 0, 1);
    let (lone, _, _) = node(&mut g, 0, 0);
    g.push_link(b_out[0], d_in[0]).unwrap();
    g.push_link(c_out[0], d_in[1]).unwrap();
    g.push_link(a_out[0], b_in[0]).unwrap();
    g.push_link(a_out[0], c_in[0]).unwrap();
    let order = g.topological_order().unwrap();
    assert_valid_order(&g, &order);
    // The walk from D pushes B then C, so C's branch is finished first.
    assert_eq!(order, vec![a, c, b, d, lone]);
}

#[test]
fn topological_order_of_an_empty_graph() {
    assert_eq!(Graph::default().topological_order().unwrap(), vec![]);
}

#[test]
fn topological_order_detects_a_cycle() {
    let mut g = Graph::default();
    let (_, x_in, x_out) = node(&mut g, 1, 1);
    let (_, y_in, y_out) = node(&mut g, 1, 1);
    g.push_link(x_out[0], y_in[0]).unwrap();
    g.push_link(y_out[0], x_in[0]).unwrap();
    assert!(matches!(g.topological_order(), Err(DagError::CycleDetected)));
}

#[test]
fn topological_order_detects_a_self_loop() {
    let mut g = Graph::default();
    let (_, ins, outs) = node(&mut g, 1, 1);
    g.push_link(outs[0], ins[0]).unwrap();
    assert!(matches!(g.topological_order(), Err(DagError::CycleDetected)));
    // Cutting the loop makes the graph ordered again.
    g.disconnect_input(ins[0]);
    assert_eq!(g.topological_order().unwrap().len(), 1);
}
