use orc_sdk::{DagError, Graph, NodeLayout, WorkflowLayout, WorkflowRead, IH, NH, OH};
use rmp::decode::Bytes;
use rmp::encode::ByteBuf;

fn graph_bytes(g: &Graph) -> Vec<u8> {
    let mut buf = ByteBuf::new();
    g.write_to_msgpack(&mut buf, &mut Vec::new(), &mut Vec::new()).unwrap();
    buf.into_vec()
}

/// A constant feeding a function, with labels, a comment, one workflow
/// input and one workflow output.
fn sample() -> WorkflowLayout {
    let mut g = Graph::default();
    let mut c_out = [OH::default()];
    g.push_node(&mut [], &mut c_out).unwrap();
    let mut f_in = [IH::default(); 2];
    let mut f_out = [OH::default()];
    g.push_node(&mut f_in, &mut f_out).unwrap();
    g.push_link(c_out[0], f_in[0]).unwrap();
    WorkflowLayout {
        graph: g,
        node_infos: vec![
            NodeLayout::Constant { type_id: 7, data: vec![1, 2, 3] },
            NodeLayout::Function { name: "add".to_string() },
        ],
        input_labels: vec![String::new(), "rhs".to_string()],
        output_labels: vec!["c".to_string(), String::new()],
        node_comments: vec![String::new(), "sum".to_string()],
        workflow_outputs: vec![(f_out[0], "out".to_string())],
        workflow_input_names: vec!["x".to_string()],
        workflow_input_index: vec![None, Some(0)],
        nested_workflows: vec![],
    }
}

#[test]
fn workflow_msgpack_exact_bytes() {
    let w = sample();
    let mut buf = ByteBuf::new();
    w.write_to_msgpack(&mut buf).unwrap();
    let got = buf.into_vec();

    let mut e = ByteBuf::new();
    rmp::encode::write_map_len(&mut e, 10).unwrap();
    rmp::encode::write_str(&mut e, "version").unwrap();
    rmp::encode::write_u64(&mut e, 1).unwrap();
    rmp::encode::write_str(&mut e, "graph").unwrap();
    let mut e = e.into_vec();
    e.extend_from_slice(&graph_bytes(&w.graph));
    let mut e = ByteBuf::from_vec(e);
    rmp::encode::write_str(&mut e, "node_infos").unwrap();
    rmp::encode::write_array_len(&mut e, 2).unwrap();
    rmp::encode::write_array_len(&mut e, 3).unwrap();
    rmp::encode::write_u32(&mut e, 0).unwrap();
    rmp::encode::write_u64(&mut e, 7).unwrap();
    rmp::encode::write_bin(&mut e, &[1, 2, 3]).unwrap();
    rmp::encode::write_array_len(&mut e, 2).unwrap();
    rmp::encode::write_u32(&mut e, 1).unwrap();
    rmp::encode::write_str(&mut e, "add").unwrap();
    rmp::encode::write_str(&mut e, "input_labels").unwrap();
    rmp::encode::write_array_len(&mut e, 1).unwrap();
    rmp::encode::write_array_len(&mut e, 3).unwrap();
    rmp::encode::write_u32(&mut e, 1).unwrap();
    rmp::encode::write_u32(&mut e, 1).unwrap();
    rmp::encode::write_str(&mut e, "rhs").unwrap();
    rmp::encode::write_str(&mut e, "output_labels").unwrap();
    rmp::encode::write_array_len(&mut e, 1).unwrap();
    rmp::encode::write_array_len(&mut e, 3).unwrap();
    rmp::encode::write_u32(&mut e, 0).unwrap();
    rmp::encode::write_u32(&mut e, 0).unwrap();
    rmp::encode::write_str(&mut e, "c").unwrap();
    rmp::encode::write_str(&mut e, "node_comments").unwrap();
    rmp::encode::write_map_len(&mut e, 1).unwrap();
    rmp::encode::write_u32(&mut e, 1).unwrap();
    rmp::encode::write_str(&mut e, "sum").unwrap();
    rmp::encode::write_str(&mut e, "workflow_outputs").unwrap();
    rmp::encode::write_array_len(&mut e, 1).unwrap();
    rmp::encode::write_array_len(&mut e, 3).unwrap();
    rmp::encode::write_u32(&mut e, 1).unwrap();
    rmp::encode::write_u32(&mut e, 0).unwrap();
    rmp::encode::write_str(&mut e, "out").unwrap();
    rmp::encode::write_str(&mut e, "workflow_input_names").unwrap();
    rmp::encode::write_array_len(&mut e, 1).unwrap();
    rmp::encode::write_str(&mut e, "x").unwrap();
    rmp::encode::write_str(&mut e, "workflow_input_index").unwrap();
    rmp::encode::write_array_len(&mut e, 1).unwrap();
    rmp::encode::write_array_len(&mut e, 3).unwrap();
    rmp::encode::write_u32(&mut e, 1).unwrap();
    rmp::encode::write_u32(&mut e, 1).unwrap();
    rmp::encode::write_u32(&mut e, 0).unwrap();
    rmp::encode::write_str(&mut e, "nested_workflows").unwrap();
    rmp::encode::write_array_len(&mut e, 0).unwrap();
    assert_eq!(got, e.into_vec());
}

#[test]
fn workflow_msgpack_nested_workflow_follows_its_name() {
    let inner = sample();
    let mut inner_buf = ByteBuf::new();
    inner.write_to_msgpack(&mut inner_buf).unwrap();
    let inner_bytes = inner_buf.into_vec();
    let mut outer = sample();
    outer.nested_workflows.push(("inner".to_string(), inner));
    let mut buf = ByteBuf::new();
    outer.write_to_msgpack(&mut buf).unwrap();
    let got = buf.into_vec();
    let mut tail = ByteBuf::new();
    rmp::encode::write_str(&mut tail, "nested_workflows").unwrap();
    rmp::encode::write_array_len(&mut tail, 1).unwrap();
    rmp::encode::write_array_len(&mut tail, 2).unwrap();
    rmp::encode::write_str(&mut tail, "inner").unwrap();
    let mut tail = tail.into_vec();
    tail.extend_from_slice(&inner_bytes);
    assert!(got.ends_with(&tail));
}

#[test]
fn workflow_msgpack_refuses_uncollected_graph() {
    let mut w = sample();
    // Reconnecting the first input leaves a deleted link behind.
    let src = w.graph.outputs().len() - 1;
    w.graph.push_link(OH { idx: src }, IH { idx: 0 }).unwrap();
    let mut buf = ByteBuf::new();
    assert!(matches!(w.write_to_msgpack(&mut buf), Err(DagError::GarbageCollectionRequired)));
}

fn write(w: &WorkflowLayout) -> Vec<u8> {
    let mut buf = ByteBuf::new();
    w.write_to_msgpack(&mut buf).unwrap();
    buf.into_vec()
}

fn read(bytes: &[u8]) -> Result<WorkflowRead, DagError> {
    let mut src = Bytes::new(bytes);
    WorkflowRead::read_from_msgpack(&mut src)
}

#[test]
fn workflow_msgpack_round_trip() {
    let mut outer = sample();
    outer.nested_workflows.push(("inner".to_string(), sample()));
    let bytes = write(&outer);
    let r = read(&bytes).unwrap();
    assert_eq!(r.graph.nodes().len(), 2);
    assert_eq!(r.graph.links().len(), 1);
    assert_eq!(r.graph.input_source(IH { idx: 0 }), Some(OH { idx: 0 }));
    assert!(matches!(&r.node_infos[0], NodeLayout::Constant { type_id: 7, data } if data == &vec![1, 2, 3]));
    assert!(matches!(&r.node_infos[1], NodeLayout::Function { name } if name == "add"));
    assert_eq!(r.input_labels, vec![(IH { idx: 1 }, "rhs".to_string())]);
    assert_eq!(r.output_labels, vec![(OH { idx: 0 }, "c".to_string())]);
    assert_eq!(r.node_comments, vec![(NH { idx: 1 }, "sum".to_string())]);
    assert_eq!(r.workflow_outputs, vec![(OH { idx: 1 }, "out".to_string())]);
    assert_eq!(r.workflow_input_names, vec!["x".to_string()]);
    assert_eq!(r.workflow_input_index, vec![(IH { idx: 1 }, 0)]);
    assert_eq!(r.nested_workflows.len(), 1);
    assert_eq!(r.nested_workflows[0].0, "inner");
    assert_eq!(r.nested_workflows[0].1.workflow_input_names, vec!["x".to_string()]);
}

#[test]
fn workflow_msgpack_read_wrong_version_fails() {
    let mut bytes = write(&sample());
    // map header (1) + "version" (8) + u64 marker (1): the version's last byte is at 17.
    bytes[17] = 2;
    assert!(matches!(read(&bytes), Err(DagError::VersionMismatch)));
}

#[test]
fn workflow_msgpack_read_truncated_fails() {
    let bytes = write(&sample());
    for len in [0, 1, 5, bytes.len() / 2, bytes.len() - 1] {
        assert!(matches!(read(&bytes[..len]), Err(DagError::ReadError)), "truncation at {}", len);
    }
}

#[test]
fn workflow_msgpack_read_wrong_key_fails() {
    let mut bytes = write(&sample());
    // The first character of "version".
    bytes[2] = b'V';
    assert!(matches!(read(&bytes), Err(DagError::ReadError)));
}

#[test]
fn workflow_msgpack_read_repeated_output_fails() {
    let mut w = sample();
    let o = w.workflow_outputs[0].0;
    w.workflow_outputs.push((o, "again".to_string()));
    assert!(matches!(read(&write(&w)), Err(DagError::InvalidOutputs)));
}

#[test]
fn workflow_msgpack_read_unknown_workflow_input_fails() {
    let mut w = sample();
    w.workflow_input_index[1] = Some(1);
    assert!(matches!(read(&write(&w)), Err(DagError::InvalidInputs)));
}

#[test]
fn workflow_msgpack_read_node_info_count_must_match() {
    let mut bytes = write(&sample());
    let key = b"\xaanode_infos";
    let at = bytes.windows(key.len()).position(|w| w == key).unwrap() + key.len();
    assert_eq!(bytes[at], 0x92);
    bytes[at] = 0x93;
    assert!(matches!(read(&bytes), Err(DagError::ReadError)));
}

#[test]
fn t_read_empty_buffer_fails() {
    let result = read(&[]);
    assert!(result.is_err());
    assert!(matches!(result, Err(DagError::ReadError)));
}

#[test]
fn workflow_msgpack_bytes_round_trip() {
    let w = sample();
    let bytes = w.to_msgpack_bytes().unwrap();
    assert_eq!(bytes, write(&w));
    assert!(bytes.len() > 1);
    let r = WorkflowRead::from_msgpack_bytes(&bytes).unwrap();
    assert_eq!(r.graph.nodes().len(), 2);
    assert_eq!(r.workflow_outputs, vec![(OH { idx: 1 }, "out".to_string())]);
    assert_eq!(r.workflow_input_index, vec![(IH { idx: 1 }, 0)]);
    assert!(matches!(WorkflowRead::from_msgpack_bytes(&bytes[..bytes.len() - 1]), Err(DagError::ReadError)));
}

#[test]
fn workflow_msgpack_bytes_refuses_uncollected_graph() {
    let mut w = sample();
    let src = w.graph.outputs().len() - 1;
    w.graph.push_link(OH { idx: src }, IH { idx: 0 }).unwrap();
    assert!(matches!(w.to_msgpack_bytes(), Err(DagError::GarbageCollectionRequired)));
}
