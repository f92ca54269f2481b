use orc_sdk::{DagError, Graph, NestedVec, GRAPH_MSGPACK_VERSION_CURRENT, IH, NH, OH};
use rmp::decode::Bytes;
use rmp::encode::ByteBuf;

/// A(0 in, 1 out) -> B(1 in, 1 out) -> C(1 in, 0 out), and A also feeds D(2 in, 2 out)
/// on its second input.
fn sample_graph() -> Graph {
    let mut g = Graph::default();
    let mut a_out = [OH::default()];
    g.push_node(&mut [], &mut a_out).unwrap();
    let mut b_in = [IH::default()];
    let mut b_out = [OH::default()];
    g.push_node(&mut b_in, &mut b_out).unwrap();
    let mut c_in = [IH::default()];
    g.push_node(&mut c_in, &mut []).unwrap();
    let mut d_in = [IH::default(); 2];
    let mut d_out = [OH::default(); 2];
    g.push_node(&mut d_in, &mut d_out).unwrap();
    g.push_link(a_out[0], b_in[0]).unwrap();
    g.push_link(b_out[0], c_in[0]).unwrap();
    g.push_link(a_out[0], d_in[1]).unwrap();
    g
}

fn write(g: &Graph) -> Result<Vec<u8>, DagError> {
    let mut buf = ByteBuf::new();
    let mut oh_local = Vec::new();
    let mut ih_local = Vec::new();
    g.write_to_msgpack(&mut buf, &mut oh_local, &mut ih_local)?;
    Ok(buf.into_vec())
}

fn read(bytes: &[u8]) -> Result<Graph, DagError> {
    let mut g = Graph::default();
    let mut src = Bytes::new(bytes);
    let mut ihs = NestedVec::default();
    let mut ohs = NestedVec::default();
    g.read_from_msgpack(&mut src, &mut ihs, &mut ohs)?;
    Ok(g)
}

/// Each node's arity and, for each input by place, the (node, place) of its source.
fn shape(g: &Graph) -> Vec<(usize, usize, Vec<Option<(usize, usize)>>)> {
    (0..g.nodes().len())
        .map(|n| {
            let ins = g.node_inputs(NH { idx: n });
            let outs = g.node_outputs(NH { idx: n });
            let sources = ins
                .iter()
                .map(|i| {
                    g.input_source(*i).map(|o| {
                        let node = g.outputs()[o.idx].node;
                        let place = g.node_outputs(node).iter().position(|x| *x == o).unwrap();
                        (node.idx, place)
                    })
                })
                .collect();
            (ins.len(), outs.len(), sources)
        })
        .collect()
}

#[test]
fn graph_msgpack_round_trip() {
    let g = sample_graph();
    let bytes = write(&g).unwrap();
    let h = read(&bytes).unwrap();
    assert_eq!(shape(&h), shape(&g));
    assert_eq!(h.links().len(), 3);
    assert!(h.links().iter().all(|l| !l.deleted));
    // Writing the graph read back gives the same bytes.
    assert_eq!(write(&h).unwrap(), bytes);
}

#[test]
fn graph_msgpack_exact_bytes() {
    let mut g = Graph::default();
    let mut ins = [IH::default()];
    let mut outs = [OH::default()];
    g.push_node(&mut ins, &mut outs).unwrap();
    g.push_link(outs[0], ins[0]).unwrap();
    let bytes = write(&g).unwrap();
    assert_eq!(
        bytes,
        vec![
            0x93, // [version, nodes, links]
            0xcf, 0, 0, 0, 0, 0, 0, 0, 1, // version
            0x91, 0x92, 0xce, 0, 0, 0, 1, 0xce, 0, 0, 0, 1, // [[1, 1]]
            0x91, 0x94, 0xce, 0, 0, 0, 0, 0xce, 0, 0, 0, 0, 0xce, 0, 0, 0, 0, 0xce, 0, 0, 0, 0, // [[0, 0, 0, 0]]
        ]
    );
    assert_eq!(GRAPH_MSGPACK_VERSION_CURRENT, 1);
}

#[test]
fn graph_msgpack_empty_graph() {
    let bytes = write(&Graph::default()).unwrap();
    assert_eq!(bytes, vec![0x93, 0xcf, 0, 0, 0, 0, 0, 0, 0, 1, 0x90, 0x90]);
    let h = read(&bytes).unwrap();
    assert!(h.nodes().is_empty());
    assert!(h.links().is_empty());
}

#[test]
fn graph_msgpack_refuses_deleted_links() {
    let mut g = sample_graph();
    // Reconnecting B's input leaves a deleted link behind.
    let b_in = g.node_inputs(NH { idx: 1 })[0];
    let d_out = g.node_outputs(NH { idx: 3 })[1];
    g.push_link(d_out, b_in).unwrap();
    let mut buf = ByteBuf::new();
    let mut oh_local = vec![7u32];
    let mut ih_local = vec![7u32];
    assert!(matches!(
        g.write_to_msgpack(&mut buf, &mut oh_local, &mut ih_local),
        Err(DagError::GarbageCollectionRequired)
    ));
    assert!(buf.as_slice().is_empty());
    assert_eq!(oh_local, vec![7]);
    g.garbage_collection().unwrap();
    let h = read(&write(&g).unwrap()).unwrap();
    assert_eq!(shape(&h), shape(&g));
    assert_eq!(shape(&h)[1].2, vec![Some((3, 1))]);
}

#[test]
fn graph_msgpack_scratch_holds_places() {
    let g = sample_graph();
    let mut buf = ByteBuf::new();
    let mut oh_local = Vec::new();
    let mut ih_local = Vec::new();
    g.write_to_msgpack(&mut buf, &mut oh_local, &mut ih_local).unwrap();
    // Outputs: A0, B0, D0, D1; inputs: B0, C0, D0, D1.
    assert_eq!(oh_local, vec![0, 0, 0, 1]);
    assert_eq!(ih_local, vec![0, 0, 0, 1]);
}

#[test]
fn graph_msgpack_read_lists_pins_per_node() {
    let bytes = write(&sample_graph()).unwrap();
    let mut g = Graph::default();
    let mut src = Bytes::new(&bytes);
    let mut ihs = NestedVec::default();
    let mut ohs = NestedVec::default();
    g.read_from_msgpack(&mut src, &mut ihs, &mut ohs).unwrap();
    assert_eq!(ihs.get(0).unwrap(), &[] as &[IH]);
    assert_eq!(ihs.get(3).unwrap(), &[IH { idx: 2 }, IH { idx: 3 }]);
    assert_eq!(ohs.get(3).unwrap(), &[OH { idx: 2 }, OH { idx: 3 }]);
    assert!(ihs.get(4).is_err());
    assert!(src.remaining_slice().is_empty());
}

#[test]
fn graph_msgpack_read_leaves_trailing_bytes() {
    let mut bytes = write(&sample_graph()).unwrap();
    bytes.extend_from_slice(&[1, 2, 3]);
    let mut g = Graph::default();
    let mut src = Bytes::new(&bytes);
    let mut ihs = NestedVec::default();
    let mut ohs = NestedVec::default();
    g.read_from_msgpack(&mut src, &mut ihs, &mut ohs).unwrap();
    assert_eq!(src.remaining_slice(), &[1, 2, 3]);
}

#[test]
fn graph_msgpack_read_empty_buffer_fails() {
    assert!(matches!(read(&[]), Err(DagError::ReadError)));
}

#[test]
fn graph_msgpack_read_truncated_fails() {
    let bytes = write(&sample_graph()).unwrap();
    for len in [1, 5, 10, bytes.len() / 2, bytes.len() - 1] {
        assert!(matches!(read(&bytes[..len]), Err(DagError::ReadError)), "truncation at {}", len);
    }
}

#[test]
fn graph_msgpack_read_wrong_version_fails() {
    let mut bytes = write(&sample_graph()).unwrap();
    bytes[9] = 2;
    assert!(matches!(read(&bytes), Err(DagError::VersionMismatch)));
}

#[test]
fn graph_msgpack_read_wrong_outer_length_fails() {
    let mut bytes = write(&sample_graph()).unwrap();
    bytes[0] = 0x92;
    assert!(matches!(read(&bytes), Err(DagError::ReadError)));
}

#[test]
fn graph_msgpack_read_link_to_missing_pin_fails() {
    // One node with one input and one output, and a link from output 1,
    // which the node does not have.
    let bytes = vec![
        0x93, 0xcf, 0, 0, 0, 0, 0, 0, 0, 1, 0x91, 0x92, 0xce, 0, 0, 0, 1, 0xce, 0, 0, 0, 1, 0x91, 0x94, 0xce, 0, 0, 0,
        0, 0xce, 0, 0, 0, 1, 0xce, 0, 0, 0, 0, 0xce, 0, 0, 0, 0,
    ];
    assert!(matches!(read(&bytes), Err(DagError::ReadError)));
    let mut to_missing_node = bytes.clone();
    to_missing_node[38] = 5;
    assert!(matches!(read(&to_missing_node), Err(DagError::ReadError)));
}

#[test]
fn graph_msgpack_read_repeated_link_replaces_earlier() {
    // One node (1 in, 2 out); two links into its input, from output 0 then 1.
    let bytes = vec![
        0x93, 0xcf, 0, 0, 0, 0, 0, 0, 0, 1, 0x91, 0x92, 0xce, 0, 0, 0, 1, 0xce, 0, 0, 0, 2, 0x92, 0x94, 0xce, 0, 0, 0,
        0, 0xce, 0, 0, 0, 0, 0xce, 0, 0, 0, 0, 0xce, 0, 0, 0, 0, 0x94, 0xce, 0, 0, 0, 0, 0xce, 0, 0, 0, 1, 0xce, 0, 0,
        0, 0, 0xce, 0, 0, 0, 0,
    ];
    let g = read(&bytes).unwrap();
    assert_eq!(g.links().len(), 2);
    assert!(g.links()[0].deleted);
    assert!(!g.links()[1].deleted);
    assert_eq!(g.input_source(IH { idx: 0 }), Some(OH { idx: 1 }));
}

#[test]
fn graph_msgpack_read_appends_to_existing_graph() {
    let bytes = write(&sample_graph()).unwrap();
    let mut g = sample_graph();
    let mut src = Bytes::new(&bytes);
    let mut ihs = NestedVec::default();
    let mut ohs = NestedVec::default();
    g.read_from_msgpack(&mut src, &mut ihs, &mut ohs).unwrap();
    assert_eq!(g.nodes().len(), 8);
    assert_eq!(g.links().len(), 6);
    let s = shape(&g);
    assert_eq!(s[5].2, vec![Some((4, 0))]);
    assert_eq!(s[7].2, vec![None, Some((4, 0))]);
}

#[test]
fn graph_msgpack_failed_read_keeps_what_was_read() {
    // The bytes of the link to a missing pin: the node entry is read and
    // added before the bad link is met.
    let bytes = vec![
        0x93, 0xcf, 0, 0, 0, 0, 0, 0, 0, 1, 0x91, 0x92, 0xce, 0, 0, 0, 1, 0xce, 0, 0, 0, 1, 0x91, 0x94, 0xce, 0, 0, 0,
        0, 0xce, 0, 0, 0, 1, 0xce, 0, 0, 0, 0, 0xce, 0, 0, 0, 0,
    ];
    let mut g = sample_graph();
    let before = shape(&g);
    let mut src = Bytes::new(&bytes);
    let mut ihs = NestedVec::default();
    let mut ohs = NestedVec::default();
    assert!(matches!(g.read_from_msgpack(&mut src, &mut ihs, &mut ohs), Err(DagError::ReadError)));
    assert_eq!(g.nodes().len(), 5);
    assert_eq!(g.links().len(), 3);
    let after = shape(&g);
    assert_eq!(after[..4], before[..]);
    assert_eq!(after[4], (1, 1, vec![None]));
}
