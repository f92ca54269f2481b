use orc_sdk::{Graph, IH, LH, NH, OH};

/// Build a simple chain: A(0 in, 1 out) -> B(1 in, 1 out) -> C(1 in, 0 out).
fn chain_graph() -> (Graph, [NH; 3], [IH; 2], [OH; 2], [LH; 2]) {
    let mut g = Graph::default();
    let mut a_in: [IH; 0] = [];
    let mut a_out = [OH::default()];
    let na = g.push_node(&mut a_in, &mut a_out).unwrap();
    let mut b_in = [IH::default()];
    let mut b_out = [OH::default()];
    let nb = g.push_node(&mut b_in, &mut b_out).unwrap();
    let mut c_in = [IH::default()];
    let mut c_out: [OH; 0] = [];
    let nc = g.push_node(&mut c_in, &mut c_out).unwrap();
    let l0 = g.push_link(a_out[0], b_in[0]).unwrap();
    let l1 = g.push_link(b_out[0], c_in[0]).unwrap();
    (g, [na, nb, nc], [b_in[0], c_in[0]], [a_out[0], b_out[0]], [l0, l1])
}

#[test]
fn graph_t_push_node_assigns_handles() {
    let mut g = Graph::default();
    let mut ins = [IH::default(); 2];
    let mut outs = [OH::default(); 3];
    let n = g.push_node(&mut ins, &mut outs).unwrap();
    assert_eq!(n.idx, 0);
    assert_eq!(ins[0].idx, 0);
    assert_eq!(ins[1].idx, 1);
    assert_eq!(outs[0].idx, 0);
    assert_eq!(outs[1].idx, 1);
    assert_eq!(outs[2].idx, 2);
}

#[test]
fn graph_t_node_inputs_outputs_iteration() {
    let mut g = Graph::default();
    let mut ins = [IH::default(); 3];
    let mut outs = [OH::default(); 2];
    let n = g.push_node(&mut ins, &mut outs).unwrap();
    assert!(g.node_inputs(n).into_iter().eq(ins));
    assert!(g.node_outputs(n).into_iter().eq(outs));
}

#[test]
fn graph_t_num_node_inputs_outputs() {
    let mut g = Graph::default();
    let mut ins = [IH::default(); 4];
    let mut outs = [OH::default(); 1];
    let n = g.push_node(&mut ins, &mut outs).unwrap();
    assert_eq!(g.node_inputs(n).len(), 4);
    assert_eq!(g.node_outputs(n).len(), 1);
}

#[test]
fn graph_t_zero_inputs_zero_outputs() {
    let mut g = Graph::default();
    let n = g.push_node(&mut [], &mut []).unwrap();
    assert_eq!(g.node_inputs(n).len(), 0);
    assert_eq!(g.node_outputs(n).len(), 0);
    assert_eq!(g.node_inputs(n).len(), 0);
    assert_eq!(g.node_outputs(n).len(), 0);
}

#[test]
fn graph_t_push_link_connects() {
    let (g, _, ins, outs, links) = chain_graph();
    // A's output links to B's input.
    assert_eq!(g.links()[links[0].idx].start, outs[0]);
    assert_eq!(g.links()[links[0].idx].end, ins[0]);
    // B's input references the link.
    assert_eq!(g.inputs()[ins[0].idx].link, Some(links[0]));
}

#[test]
fn graph_t_multiple_links_from_one_output() {
    let mut g = Graph::default();
    let mut a_out = [OH::default()];
    let _na = g.push_node(&mut [], &mut a_out).unwrap();
    let mut b_in = [IH::default()];
    let _nb = g.push_node(&mut b_in, &mut []).unwrap();
    let mut c_in = [IH::default()];
    let _nc = g.push_node(&mut c_in, &mut []).unwrap();
    let l0 = g.push_link(a_out[0], b_in[0]).unwrap();
    let l1 = g.push_link(a_out[0], c_in[0]).unwrap();
    // Output's linked list: l0 -> l1.
    assert_eq!(g.outputs()[a_out[0].idx].link, Some(l0));
    assert_eq!(g.links()[l0.idx].next, Some(l1));
    assert_eq!(g.links()[l1.idx].prev, Some(l0));
    assert_eq!(g.links()[l1.idx].next, None);
}

#[test]
fn t_reconnect_input_from_different_output() {
    let mut g = Graph::default();
    let mut a_out = [OH::default()];
    let _na = g.push_node(&mut [], &mut a_out).unwrap();
    let mut b_out = [OH::default()];
    let _nb = g.push_node(&mut [], &mut b_out).unwrap();
    let mut c_in = [IH::default()];
    let _nc = g.push_node(&mut c_in, &mut []).unwrap();
    // Connect A -> C.
    let l0 = g.push_link(a_out[0], c_in[0]).unwrap();
    assert_eq!(g.inputs()[c_in[0].idx].link, Some(l0));
    // Reconnect B -> C. Old link should be deleted.
    let l1 = g.push_link(b_out[0], c_in[0]).unwrap();
    assert_eq!(g.inputs()[c_in[0].idx].link, Some(l1));
    assert!(g.links()[l0.idx].deleted);
    // A's output has no live links.
    assert_eq!(g.outputs()[a_out[0].idx].link, None);
    // B's output has the new link.
    assert_eq!(g.outputs()[b_out[0].idx].link, Some(l1));
}

#[test]
fn t_reconnect_input_from_same_output() {
    let mut g = Graph::default();
    let mut o = [OH::default()];
    let _src = g.push_node(&mut [], &mut o).unwrap();
    let mut i1 = [IH::default()];
    let _n1 = g.push_node(&mut i1, &mut []).unwrap();
    let mut i2 = [IH::default()];
    let _n2 = g.push_node(&mut i2, &mut []).unwrap();
    let l0 = g.push_link(o[0], i1[0]).unwrap();
    let l1 = g.push_link(o[0], i2[0]).unwrap();
    // Reconnect O -> I2 (same pair as l1).
    let l2 = g.push_link(o[0], i2[0]).unwrap();
    // l0 is still live, l1 is deleted, l2 is the new link.
    assert!(!g.links()[l0.idx].deleted);
    assert!(g.links()[l1.idx].deleted);
    assert!(!g.links()[l2.idx].deleted);
    // Output's linked list: l0 -> l2.
    assert_eq!(g.outputs()[o[0].idx].link, Some(l0));
    assert_eq!(g.links()[l0.idx].next, Some(l2));
    assert_eq!(g.links()[l2.idx].prev, Some(l0));
    assert_eq!(g.links()[l2.idx].next, None);
    // Both inputs are connected.
    assert_eq!(g.inputs()[i1[0].idx].link, Some(l0));
    assert_eq!(g.inputs()[i2[0].idx].link, Some(l2));
}

#[test]
fn t_reconnect_sole_link_on_output() {
    let mut g = Graph::default();
    let mut o = [OH::default()];
    let _src = g.push_node(&mut [], &mut o).unwrap();
    let mut i = [IH::default()];
    let _dst = g.push_node(&mut i, &mut []).unwrap();
    let l0 = g.push_link(o[0], i[0]).unwrap();
    let l1 = g.push_link(o[0], i[0]).unwrap();
    assert!(g.links()[l0.idx].deleted);
    assert!(!g.links()[l1.idx].deleted);
    assert_eq!(g.outputs()[o[0].idx].link, Some(l1));
    assert_eq!(g.links()[l1.idx].prev, None);
    assert_eq!(g.links()[l1.idx].next, None);
    assert_eq!(g.inputs()[i[0].idx].link, Some(l1));
}

#[test]
fn graph_t_chain_structure() {
    let (g, nodes, ins, outs, _) = chain_graph();
    // A has 0 inputs, 1 output.
    assert_eq!(g.node_inputs(nodes[0]).len(), 0);
    assert_eq!(g.node_outputs(nodes[0]).len(), 1);
    // B has 1 input, 1 output.
    assert_eq!(g.node_inputs(nodes[1]).len(), 1);
    assert_eq!(g.node_outputs(nodes[1]).len(), 1);
    // C has 1 input, 0 outputs.
    assert_eq!(g.node_inputs(nodes[2]).len(), 1);
    assert_eq!(g.node_outputs(nodes[2]).len(), 0);
    // B's input belongs to node B.
    assert_eq!(g.inputs()[ins[0].idx].node, nodes[1]);
    // A's output belongs to node A.
    assert_eq!(g.outputs()[outs[0].idx].node, nodes[0]);
}

#[test]
fn graph_t_clear_empties_everything() {
    let (mut g, _, _, _, _) = chain_graph();
    g.clear().unwrap();
    assert!(g.inputs().is_empty());
    assert!(g.outputs().is_empty());
    assert!(g.links().is_empty());
    assert!(g.nodes().is_empty());
}

#[test]
fn input_source_follows_reconnection() {
    let mut g = Graph::default();
    let mut a_out = [OH::default()];
    g.push_node(&mut [], &mut a_out).unwrap();
    let mut b_out = [OH::default()];
    g.push_node(&mut [], &mut b_out).unwrap();
    let mut c_in = [IH::default()];
    g.push_node(&mut c_in, &mut []).unwrap();
    assert_eq!(g.input_source(c_in[0]), None);
    g.push_link(a_out[0], c_in[0]).unwrap();
    assert_eq!(g.input_source(c_in[0]), Some(a_out[0]));
    g.push_link(b_out[0], c_in[0]).unwrap();
    assert_eq!(g.input_source(c_in[0]), Some(b_out[0]));
    g.disconnect_input(c_in[0]);
    assert_eq!(g.input_source(c_in[0]), None);
    // Disconnecting an unconnected input changes nothing.
    g.disconnect_input(c_in[0]);
    assert_eq!(g.input_source(c_in[0]), None);
}

#[test]
fn garbage_collection_compacts_links_and_keeps_sources() {
    let mut g = Graph::default();
    let mut o = [OH::default()];
    g.push_node(&mut [], &mut o).unwrap();
    let mut ins = [IH::default(); 3];
    g.push_node(&mut ins, &mut []).unwrap();
    g.push_link(o[0], ins[0]).unwrap();
    g.push_link(o[0], ins[1]).unwrap();
    g.push_link(o[0], ins[2]).unwrap();
    // Reconnect the first input: link 0 is deleted, link 3 appended.
    g.push_link(o[0], ins[0]).unwrap();
    assert_eq!(g.links().len(), 4);
    assert!(g.links()[0].deleted);
    g.garbage_collection().unwrap();
    // The deleted link is gone; the last link took its place.
    assert_eq!(g.links().len(), 3);
    assert!(g.links().iter().all(|l| !l.deleted));
    assert_eq!(g.links()[0].end, ins[0]);
    assert_eq!(g.links()[1].end, ins[1]);
    assert_eq!(g.links()[2].end, ins[2]);
    for i in ins {
        assert_eq!(g.input_source(i), Some(o[0]));
    }
    // The fan-out of the output keeps its order: ins[1], ins[2], ins[0].
    let head = g.outputs()[o[0].idx].link.unwrap();
    assert_eq!(g.links()[head.idx].end, ins[1]);
    let second = g.links()[head.idx].next.unwrap();
    assert_eq!(g.links()[second.idx].end, ins[2]);
    let third = g.links()[second.idx].next.unwrap();
    assert_eq!(g.links()[third.idx].end, ins[0]);
    assert_eq!(g.links()[third.idx].next, None);
    // Pins and nodes are untouched.
    assert_eq!(g.inputs().len(), 3);
    assert_eq!(g.nodes().len(), 2);
}

#[test]
fn reserve_and_capacity_keep_the_graph() {
    let (mut g, nodes, _, _, _) = chain_graph();
    g.reserve(10, 10, 10, 10).unwrap();
    assert_eq!(g.nodes().len(), 3);
    assert_eq!(g.node_inputs(nodes[1]).len(), 1);
    let empty = Graph::with_capacity(4, 4, 4, 4);
    assert!(empty.nodes().is_empty());
}

#[test]
fn dag_t_push_node_assigns_handles() {
    let mut g = Graph::default();
    let mut ins = [IH::default(); 2];
    let mut outs = [OH::default(); 3];
    let n = g.push_node(&mut ins, &mut outs).unwrap();
    assert_eq!(n.idx, 0);
    assert_eq!(ins[0].idx, 0);
    assert_eq!(ins[1].idx, 1);
    assert_eq!(outs[0].idx, 0);
    assert_eq!(outs[1].idx, 1);
    assert_eq!(outs[2].idx, 2);
}

#[test]
fn dag_t_node_inputs_outputs_iteration() {
    let mut g = Graph::default();
    let mut ins = [IH::default(); 3];
    let mut outs = [OH::default(); 2];
    let n = g.push_node(&mut ins, &mut outs).unwrap();
    assert!(g.node_inputs(n).into_iter().eq(ins));
    assert!(g.node_outputs(n).into_iter().eq(outs));
}

#[test]
fn dag_t_num_node_inputs_outputs() {
    let mut g = Graph::default();
    let mut ins = [IH::default(); 4];
    let mut outs = [OH::default(); 1];
    let n = g.push_node(&mut ins, &mut outs).unwrap();
    assert_eq!(g.node_inputs(n).len(), 4);
    assert_eq!(g.node_outputs(n).len(), 1);
}

#[test]
fn dag_t_zero_inputs_zero_outputs() {
    let mut g = Graph::default();
    let n = g.push_node(&mut [], &mut []).unwrap();
    assert_eq!(g.node_inputs(n).len(), 0);
    assert_eq!(g.node_outputs(n).len(), 0);
    assert_eq!(g.node_inputs(n).len(), 0);
    assert_eq!(g.node_outputs(n).len(), 0);
}

#[test]
fn dag_t_push_link_connects() {
    let (g, _, ins, outs, links) = chain_graph();
    // A's output links to B's input.
    assert_eq!(g.links()[links[0].idx].start, outs[0]);
    assert_eq!(g.links()[links[0].idx].end, ins[0]);
    // B's input references the link.
    assert_eq!(g.inputs()[ins[0].idx].link, Some(links[0]));
}

#[test]
fn dag_t_multiple_links_from_one_output() {
    let mut g = Graph::default();
    let mut a_out = [OH::default()];
    let _na = g.push_node(&mut [], &mut a_out).unwrap();
    let mut b_in = [IH::default()];
    let _nb = g.push_node(&mut b_in, &mut []).unwrap();
    let mut c_in = [IH::default()];
    let _nc = g.push_node(&mut c_in, &mut []).unwrap();
    let l0 = g.push_link(a_out[0], b_in[0]).unwrap();
    let l1 = g.push_link(a_out[0], c_in[0]).unwrap();
    // Output's linked list: l0 -> l1.
    assert_eq!(g.outputs()[a_out[0].idx].link, Some(l0));
    assert_eq!(g.links()[l0.idx].next, Some(l1));
    assert_eq!(g.links()[l1.idx].prev, Some(l0));
    assert_eq!(g.links()[l1.idx].next, None);
}

#[test]
fn dag_t_chain_structure() {
    let (g, nodes, ins, outs, _) = chain_graph();
    // A has 0 inputs, 1 output.
    assert_eq!(g.node_inputs(nodes[0]).len(), 0);
    assert_eq!(g.node_outputs(nodes[0]).len(), 1);
    // B has 1 input, 1 output.
    assert_eq!(g.node_inputs(nodes[1]).len(), 1);
    assert_eq!(g.node_outputs(nodes[1]).len(), 1);
    // C has 1 input, 0 outputs.
    assert_eq!(g.node_inputs(nodes[2]).len(), 1);
    assert_eq!(g.node_outputs(nodes[2]).len(), 0);
    // B's input belongs to node B.
    assert_eq!(g.inputs()[ins[0].idx].node, nodes[1]);
    // A's output belongs to node A.
    assert_eq!(g.outputs()[outs[0].idx].node, nodes[0]);
}

#[test]
fn dag_t_clear_empties_everything() {
    let (mut g, _, _, _, _) = chain_graph();
    g.clear().unwrap();
    assert!(g.inputs().is_empty());
    assert!(g.outputs().is_empty());
    assert!(g.links().is_empty());
    assert!(g.nodes().is_empty());
}

#[test]
fn garbage_collection_points_output_at_its_first_link() {
    let mut g = Graph::default();
    let mut o = [OH::default()];
    g.push_node(&mut [], &mut o).unwrap();
    let mut i = [IH::default()];
    g.push_node(&mut i, &mut []).unwrap();
    g.push_link(o[0], i[0]).unwrap();
    g.push_link(o[0], i[0]).unwrap();
    g.garbage_collection().unwrap();
    assert_eq!(g.links().len(), 1);
    assert!(!g.links()[0].deleted);
    assert_eq!(g.links()[0].start, o[0]);
    assert_eq!(g.links()[0].end, i[0]);
    assert_eq!(g.inputs()[i[0].idx].link, Some(LH { idx: 0 }));
    assert_eq!(g.outputs()[o[0].idx].link, Some(LH { idx: 0 }));
    assert_eq!(g.input_source(i[0]), Some(o[0]));
    assert_eq!(g.nodes().len(), 2);
}
