//! The workflow file: a MessagePack map of ten entries, each a key string
//! followed by its value: `version` (a `u64`), `graph` (the graph layout),
//! `node_infos`, `input_labels`, `output_labels`, `node_comments`,
//! `workflow_outputs`, `workflow_input_names`, `workflow_input_index` and
//! `nested_workflows`, the last holding `[name, workflow]` pairs written the
//! same way.
//!
//! The values that only a plugin can produce (the bytes of a constant) or
//! resolve (the function a name refers to) are held here as plain values.
use vstd::prelude::*;

use rmp::encode::ByteBuf;
use vstd::utf8::encode_utf8;

use crate::error::DagError;
use crate::graph::{Graph, OH};
use crate::graph_io::layout_bytes;
use crate::msgpack::{
    array_len_bytes, be_bytes, buf_bytes, buf_into_vec, new_buf, u32_bytes, u64_bytes, write_array_len, write_u32, write_u64,
};

verus! {

/// The version of the workflow file this library writes and reads.
pub const WORKFLOW_MSGPACK_VERSION_CURRENT: u64 = 1;

/// What the file says of one node.
pub enum NodeLayout {
    /// A constant deck: its type and its serialised bytes.
    Constant { type_id: u64, data: Vec<u8> },
    /// A call of the plugin function of this name.
    Function { name: String },
    /// A call of the nested workflow of this name.
    NestedCall { workflow_name: String },
    /// A node that shows its input under this label.
    Inspect { label: String },
}

/// Everything a workflow file holds: the graph, one entry per node for
/// `node_infos` and `node_comments`, one per input pin for `input_labels`
/// and `workflow_input_index`, one per output pin for `output_labels`, the
/// named workflow outputs, the names of the workflow inputs and the nested
/// workflows by name. An empty label or comment, and an input with no
/// workflow input, are left out of the file.
pub struct WorkflowLayout {
    pub graph: Graph,
    pub node_infos: Vec<NodeLayout>,
    pub input_labels: Vec<String>,
    pub output_labels: Vec<String>,
    pub node_comments: Vec<String>,
    pub workflow_outputs: Vec<(OH, String)>,
    pub workflow_input_names: Vec<String>,
    pub workflow_input_index: Vec<Option<u32>>,
    pub nested_workflows: Vec<(String, WorkflowLayout)>,
}

/// The shortest string header for `len` bytes.
pub open spec fn str_len_bytes(len: u32) -> Seq<u8> {
    if len < 32 {
        seq![(0xa0 + len) as u8]
    } else if len < 256 {
        seq![0xd9u8, len as u8]
    } else if len < 0x10000 {
        seq![0xdau8] + be_bytes(len as nat, 2)
    } else {
        seq![0xdbu8] + be_bytes(len as nat, 4)
    }
}

/// A string: its header and its UTF-8 bytes.
pub open spec fn str_bytes(s: Seq<char>) -> Seq<u8> {
    str_len_bytes(encode_utf8(s).len() as u32) + encode_utf8(s)
}

/// The shortest binary header for `len` bytes.
pub open spec fn bin_len_bytes(len: u32) -> Seq<u8> {
    if len < 256 {
        seq![0xc4u8, len as u8]
    } else if len < 0x10000 {
        seq![0xc5u8] + be_bytes(len as nat, 2)
    } else {
        seq![0xc6u8] + be_bytes(len as nat, 4)
    }
}

/// The shortest map header for `len` entries.
pub open spec fn map_len_bytes(len: u32) -> Seq<u8> {
    if len < 16 {
        seq![(0x80 + len) as u8]
    } else if len < 0x10000 {
        seq![0xdeu8] + be_bytes(len as nat, 2)
    } else {
        seq![0xdfu8] + be_bytes(len as nat, 4)
    }
}

/// The entry of one node in `node_infos`: its tag, then what it holds.
pub open spec fn node_info_bytes(n: NodeLayout) -> Seq<u8> {
    match n {
        NodeLayout::Constant { type_id, data } => array_len_bytes(3) + u32_bytes(0) + u64_bytes(type_id)
            + bin_len_bytes(data@.len() as u32) + data@,
        NodeLayout::Function { name } => array_len_bytes(2) + u32_bytes(1) + str_bytes(name@),
        NodeLayout::NestedCall { workflow_name } => array_len_bytes(2) + u32_bytes(2) + str_bytes(workflow_name@),
        NodeLayout::Inspect { label } => array_len_bytes(2) + u32_bytes(3) + str_bytes(label@),
    }
}

/// The entries of the first `k` nodes.
pub open spec fn node_infos_bytes(infos: Seq<NodeLayout>, k: int) -> Seq<u8>
    decreases k,
{
    if k <= 0 {
        Seq::empty()
    } else {
        node_infos_bytes(infos, k - 1) + node_info_bytes(infos[k - 1])
    }
}

/// An entry naming a pin by its node and its place, then a string.
pub open spec fn pin_entry_bytes(node: int, place: int, text: Seq<char>) -> Seq<u8> {
    array_len_bytes(3) + u32_bytes(node as u32) + u32_bytes(place as u32) + str_bytes(text)
}

/// The number of non-empty strings among the first `k`.
pub open spec fn nonempty_count(texts: Seq<String>, k: int) -> nat
    decreases k,
{
    if k <= 0 {
        0
    } else {
        nonempty_count(texts, k - 1) + if texts[k - 1]@.len() == 0 {
            0nat
        } else {
            1nat
        }
    }
}

/// The entries of the non-empty labels of the first `k` input pins.
pub open spec fn input_labels_bytes(g: Graph, labels: Seq<String>, k: int) -> Seq<u8>
    decreases k,
{
    if k <= 0 {
        Seq::empty()
    } else {
        input_labels_bytes(g, labels, k - 1) + if labels[k - 1]@.len() == 0 {
            Seq::empty()
        } else {
            pin_entry_bytes(g.input_seq()[k - 1].node.idx as int, g.input_place(k - 1), labels[k - 1]@)
        }
    }
}

/// The entries of the non-empty labels of the first `k` output pins.
pub open spec fn output_labels_bytes(g: Graph, labels: Seq<String>, k: int) -> Seq<u8>
    decreases k,
{
    if k <= 0 {
        Seq::empty()
    } else {
        output_labels_bytes(g, labels, k - 1) + if labels[k - 1]@.len() == 0 {
            Seq::empty()
        } else {
            pin_entry_bytes(g.output_seq()[k - 1].node.idx as int, g.output_place(k - 1), labels[k - 1]@)
        }
    }
}

/// The entries of the non-empty comments of the first `k` nodes: the
/// node's index, then the comment.
pub open spec fn comments_bytes(comments: Seq<String>, k: int) -> Seq<u8>
    decreases k,
{
    if k <= 0 {
        Seq::empty()
    } else {
        comments_bytes(comments, k - 1) + if comments[k - 1]@.len() == 0 {
            Seq::empty()
        } else {
            u32_bytes((k - 1) as u32) + str_bytes(comments[k - 1]@)
        }
    }
}

/// The entries of the first `k` workflow outputs.
pub open spec fn outputs_bytes(g: Graph, outs: Seq<(OH, String)>, k: int) -> Seq<u8>
    decreases k,
{
    if k <= 0 {
        Seq::empty()
    } else {
        let (oh, name) = outs[k - 1];
        outputs_bytes(g, outs, k - 1) + pin_entry_bytes(
            g.output_seq()[oh.idx as int].node.idx as int,
            g.output_place(oh.idx as int),
            name@,
        )
    }
}

/// The first `k` strings.
pub open spec fn strings_bytes(texts: Seq<String>, k: int) -> Seq<u8>
    decreases k,
{
    if k <= 0 {
        Seq::empty()
    } else {
        strings_bytes(texts, k - 1) + str_bytes(texts[k - 1]@)
    }
}

/// The number of input pins among the first `k` that feed a workflow input.
pub open spec fn mapped_count(index: Seq<Option<u32>>, k: int) -> nat
    decreases k,
{
    if k <= 0 {
        0
    } else {
        mapped_count(index, k - 1) + if index[k - 1] is Some {
            1nat
        } else {
            0nat
        }
    }
}

/// The entries of the first `k` input pins that feed a workflow input: the
/// pin, then the number of that input.
pub open spec fn input_index_bytes(g: Graph, index: Seq<Option<u32>>, k: int) -> Seq<u8>
    decreases k,
{
    if k <= 0 {
        Seq::empty()
    } else {
        input_index_bytes(g, index, k - 1) + match index[k - 1] {
            Some(w) => array_len_bytes(3) + u32_bytes(g.input_seq()[k - 1].node.idx as u32) + u32_bytes(
                g.input_place(k - 1) as u32,
            ) + u32_bytes(w),
            None => Seq::empty(),
        }
    }
}

/// The bytes of the key `key`.
pub open spec fn key_bytes(key: &str) -> Seq<u8> {
    str_bytes(key@)
}

/// The start of the file: the map header, the version and the graph.
#[verifier::opaque]
pub open spec fn head_bytes(g: Graph) -> Seq<u8> {
    map_len_bytes(10) + key_bytes("version") + u64_bytes(WORKFLOW_MSGPACK_VERSION_CURRENT) + key_bytes("graph")
        + layout_bytes(g.layout_nodes(), g.layout_links())
}

/// A key, then a header, then the entries it announces.
pub open spec fn section(key: &str, header: Seq<u8>, body: Seq<u8>) -> Seq<u8> {
    key_bytes(key) + header + body
}

/// The `node_infos` entry.
pub open spec fn infos_section(w: WorkflowLayout) -> Seq<u8> {
    section(
        "node_infos",
        array_len_bytes(w.node_infos@.len() as u32),
        node_infos_bytes(w.node_infos@, w.node_infos@.len() as int),
    )
}

/// The `input_labels` entry.
pub open spec fn input_labels_section(w: WorkflowLayout) -> Seq<u8> {
    section(
        "input_labels",
        array_len_bytes(nonempty_count(w.input_labels@, w.input_labels@.len() as int) as u32),
        input_labels_bytes(w.graph, w.input_labels@, w.input_labels@.len() as int),
    )
}

/// The `output_labels` entry.
pub open spec fn output_labels_section(w: WorkflowLayout) -> Seq<u8> {
    section(
        "output_labels",
        array_len_bytes(nonempty_count(w.output_labels@, w.output_labels@.len() as int) as u32),
        output_labels_bytes(w.graph, w.output_labels@, w.output_labels@.len() as int),
    )
}

/// The `node_comments` entry.
pub open spec fn comments_section(w: WorkflowLayout) -> Seq<u8> {
    section(
        "node_comments",
        map_len_bytes(nonempty_count(w.node_comments@, w.node_comments@.len() as int) as u32),
        comments_bytes(w.node_comments@, w.node_comments@.len() as int),
    )
}

/// The `workflow_outputs` entry.
pub open spec fn outputs_section(w: WorkflowLayout) -> Seq<u8> {
    section(
        "workflow_outputs",
        array_len_bytes(w.workflow_outputs@.len() as u32),
        outputs_bytes(w.graph, w.workflow_outputs@, w.workflow_outputs@.len() as int),
    )
}

/// The `workflow_input_names` entry.
pub open spec fn names_section(w: WorkflowLayout) -> Seq<u8> {
    section(
        "workflow_input_names",
        array_len_bytes(w.workflow_input_names@.len() as u32),
        strings_bytes(w.workflow_input_names@, w.workflow_input_names@.len() as int),
    )
}

/// The `workflow_input_index` entry.
pub open spec fn index_section(w: WorkflowLayout) -> Seq<u8> {
    section(
        "workflow_input_index",
        array_len_bytes(mapped_count(w.workflow_input_index@, w.workflow_input_index@.len() as int) as u32),
        input_index_bytes(w.graph, w.workflow_input_index@, w.workflow_input_index@.len() as int),
    )
}

/// The entries from `node_infos` to `workflow_input_index`.
#[verifier::opaque]
pub open spec fn sections_bytes(w: WorkflowLayout) -> Seq<u8> {
    infos_section(w) + input_labels_section(w) + output_labels_section(w) + comments_section(w)
        + outputs_section(w) + names_section(w) + index_section(w)
}

/// The whole file of workflow `w`: the start, the entries from
/// `node_infos` to `workflow_input_index`, and the nested workflows.
pub open spec fn workflow_bytes(w: WorkflowLayout) -> Seq<u8>
    decreases w,
{
    head_bytes(w.graph) + sections_bytes(w) + key_bytes("nested_workflows") + array_len_bytes(
        w.nested_workflows@.len() as u32,
    ) + nested_bytes(w.nested_workflows@)
}

/// The `[name, workflow]` entries of the nested workflows.
pub open spec fn nested_bytes(nested: Seq<(String, WorkflowLayout)>) -> Seq<u8>
    decreases nested,
{
    if nested.len() == 0 {
        Seq::empty()
    } else {
        let last = nested[nested.len() - 1];
        nested_bytes(nested.drop_last()) + array_len_bytes(2) + str_bytes(last.0@) + workflow_bytes(last.1)
    }
}

/// `w` can be written: a well-formed graph whose pins the format can place,
/// one entry per node, input pin or output pin in each list kept by them,
/// workflow outputs that are output pins, and nested workflows that can be
/// written too.
#[verifier::opaque]
pub open spec fn layout_fits(w: WorkflowLayout) -> bool
    decreases w,
{
    let g = w.graph;
    &&& g.wf()
    &&& forall|n: int|
        0 <= n < g.node_seq().len() ==> (#[trigger] g.input_pins(n)).len() <= u32::MAX && g.output_pins(n).len()
            <= u32::MAX
    &&& w.node_infos@.len() == g.node_seq().len()
    &&& w.node_comments@.len() == g.node_seq().len()
    &&& w.input_labels@.len() == g.input_seq().len()
    &&& w.workflow_input_index@.len() == g.input_seq().len()
    &&& w.output_labels@.len() == g.output_seq().len()
    &&& forall|k: int|
        0 <= k < w.workflow_outputs@.len() ==> (#[trigger] w.workflow_outputs@[k]).0.idx < g.output_seq().len()
    &&& forall|k: int| 0 <= k < w.nested_workflows@.len() ==> layout_fits((#[trigger] w.nested_workflows@[k]).1)
}

/// A workflow is collected when its graph is and its nested workflows are.
pub(crate) proof fn lemma_collected(w: WorkflowLayout)
    ensures
        layout_collected(w) == (!w.graph.has_deleted() && forall|k: int|
            0 <= k < w.nested_workflows@.len() ==> layout_collected((#[trigger] w.nested_workflows@[k]).1)),
{
    reveal(layout_collected);
}

/// What writing a workflow needs of its graph and of its nested workflows.
pub(crate) proof fn lemma_fits(w: WorkflowLayout)
    requires
        layout_fits(w),
    ensures
        w.graph.wf(),
        forall|n: int|
            0 <= n < w.graph.node_seq().len() ==> (#[trigger] w.graph.input_pins(n)).len() <= u32::MAX
                && w.graph.output_pins(n).len() <= u32::MAX,
        forall|k: int| 0 <= k < w.nested_workflows@.len() ==> layout_fits((#[trigger] w.nested_workflows@[k]).1),
        w.node_infos@.len() == w.graph.node_seq().len(),
        w.node_comments@.len() == w.graph.node_seq().len(),
        w.input_labels@.len() == w.graph.input_seq().len(),
        w.workflow_input_index@.len() == w.graph.input_seq().len(),
        w.output_labels@.len() == w.graph.output_seq().len(),
        forall|k: int|
            0 <= k < w.workflow_outputs@.len() ==> (#[trigger] w.workflow_outputs@[k]).0.idx < w.graph.output_seq().len(),
{
    reveal(layout_fits);
}

/// No graph of `w` or of its nested workflows holds a deleted element.
#[verifier::opaque]
pub open spec fn layout_collected(w: WorkflowLayout) -> bool
    decreases w,
{
    &&& !w.graph.has_deleted()
    &&& forall|k: int| 0 <= k < w.nested_workflows@.len() ==> layout_collected((#[trigger] w.nested_workflows@[k]).1)
}

/// `rmp::encode::write_str` into a `ByteBuf`: appends the shortest string
/// header for the length of `s` in bytes (that length taken as a `u32`),
/// then the UTF-8 bytes of `s`. Cannot fail.
#[verifier::external_body]
fn write_str(buf: &mut ByteBuf, s: &str) -> (r: Option<()>)
    ensures
        r is Some,
        buf_bytes(*final(buf)) == buf_bytes(*old(buf)) + str_bytes(s@),
{
    match rmp::encode::write_str(buf, s) {
        Ok(_) => Some(()),
        Err(_) => None,
    }
}

/// `rmp::encode::write_bin` into a `ByteBuf`: appends the shortest binary
/// header for the length of `data` (taken as a `u32`), then `data`. Cannot
/// fail.
#[verifier::external_body]
fn write_bin(buf: &mut ByteBuf, data: &[u8]) -> (r: Option<()>)
    ensures
        r is Some,
        buf_bytes(*final(buf)) == buf_bytes(*old(buf)) + bin_len_bytes(data@.len() as u32) + data@,
{
    match rmp::encode::write_bin(buf, data) {
        Ok(_) => Some(()),
        Err(_) => None,
    }
}

/// `rmp::encode::write_map_len` into a `ByteBuf`: appends the shortest map
/// header for `len` entries. Cannot fail.
#[verifier::external_body]
fn write_map_len(buf: &mut ByteBuf, len: u32) -> (r: Option<()>)
    ensures
        r is Some,
        buf_bytes(*final(buf)) == buf_bytes(*old(buf)) + map_len_bytes(len),
{
    match rmp::encode::write_map_len(buf, len) {
        Ok(_) => Some(()),
        Err(_) => None,
    }
}

fn write_node_infos(infos: &Vec<NodeLayout>, w: &mut ByteBuf)
    ensures
        buf_bytes(*final(w)) == buf_bytes(*old(w)) + node_infos_bytes(infos@, infos@.len() as int),
{
    let ghost b0 = buf_bytes(*w);
    let mut k: usize = 0;
    while k < infos.len()
        invariant
            0 <= k <= infos@.len(),
            buf_bytes(*w) == b0 + node_infos_bytes(infos@, k as int),
        decreases infos@.len() - k,
    {
        let ghost before = buf_bytes(*w);
        match &infos[k] {
            NodeLayout::Constant { type_id, data } => {
                write_array_len(w, 3);
                write_u32(w, 0);
                write_u64(w, *type_id);
                write_bin(w, data.as_slice());
            },
            NodeLayout::Function { name } => {
                write_array_len(w, 2);
                write_u32(w, 1);
                write_str(w, name.as_str());
            },
            NodeLayout::NestedCall { workflow_name } => {
                write_array_len(w, 2);
                write_u32(w, 2);
                write_str(w, workflow_name.as_str());
            },
            NodeLayout::Inspect { label } => {
                write_array_len(w, 2);
                write_u32(w, 3);
                write_str(w, label.as_str());
            },
        }
        assert(buf_bytes(*w) =~= before + node_info_bytes(infos@[k as int]));
        k = k + 1;
    }
}

fn count_nonempty(texts: &Vec<String>) -> (r: usize)
    ensures
        r == nonempty_count(texts@, texts@.len() as int),
{
    let mut n: usize = 0;
    let mut k: usize = 0;
    while k < texts.len()
        invariant
            0 <= k <= texts@.len(),
            n == nonempty_count(texts@, k as int),
            n <= k,
        decreases texts@.len() - k,
    {
        if !texts[k].as_str().is_empty() {
            n = n + 1;
        }
        k = k + 1;
    }
    n
}

fn count_mapped(index: &Vec<Option<u32>>) -> (r: usize)
    ensures
        r == mapped_count(index@, index@.len() as int),
{
    let mut n: usize = 0;
    let mut k: usize = 0;
    while k < index.len()
        invariant
            0 <= k <= index@.len(),
            n == mapped_count(index@, k as int),
            n <= k,
        decreases index@.len() - k,
    {
        if index[k].is_some() {
            n = n + 1;
        }
        k = k + 1;
    }
    n
}

fn write_input_labels(g: &Graph, labels: &Vec<String>, ih_local: &Vec<u32>, w: &mut ByteBuf)
    requires
        g.wf(),
        labels@.len() == g.input_seq().len(),
        ih_local@ == Seq::new(g.input_seq().len(), |i: int| g.input_place(i) as u32),
    ensures
        buf_bytes(*final(w)) == buf_bytes(*old(w)) + input_labels_bytes(*g, labels@, labels@.len() as int),
{
    let ghost b0 = buf_bytes(*w);
    let inputs = g.inputs();
    let mut k: usize = 0;
    while k < labels.len()
        invariant
            0 <= k <= labels@.len(),
            labels@.len() == g.input_seq().len(),
            inputs@ == g.input_seq(),
            ih_local@ == Seq::new(g.input_seq().len(), |i: int| g.input_place(i) as u32),
            buf_bytes(*w) == b0 + input_labels_bytes(*g, labels@, k as int),
        decreases labels@.len() - k,
    {
        let ghost before = buf_bytes(*w);
        let label = labels[k].as_str();
        if !label.is_empty() {
            write_array_len(w, 3);
            write_u32(w, inputs[k].node.idx as u32);
            write_u32(w, ih_local[k]);
            write_str(w, label);
            assert(buf_bytes(*w) =~= before + pin_entry_bytes(
                g.input_seq()[k as int].node.idx as int,
                g.input_place(k as int),
                labels@[k as int]@,
            ));
        } else {
            assert(buf_bytes(*w) =~= before + Seq::<u8>::empty());
        }
        k = k + 1;
    }
}

fn write_output_labels(g: &Graph, labels: &Vec<String>, oh_local: &Vec<u32>, w: &mut ByteBuf)
    requires
        g.wf(),
        labels@.len() == g.output_seq().len(),
        oh_local@ == Seq::new(g.output_seq().len(), |o: int| g.output_place(o) as u32),
    ensures
        buf_bytes(*final(w)) == buf_bytes(*old(w)) + output_labels_bytes(*g, labels@, labels@.len() as int),
{
    let ghost b0 = buf_bytes(*w);
    let outputs = g.outputs();
    let mut k: usize = 0;
    while k < labels.len()
        invariant
            0 <= k <= labels@.len(),
            labels@.len() == g.output_seq().len(),
            outputs@ == g.output_seq(),
            oh_local@ == Seq::new(g.output_seq().len(), |o: int| g.output_place(o) as u32),
            buf_bytes(*w) == b0 + output_labels_bytes(*g, labels@, k as int),
        decreases labels@.len() - k,
    {
        let ghost before = buf_bytes(*w);
        let label = labels[k].as_str();
        if !label.is_empty() {
            write_array_len(w, 3);
            write_u32(w, outputs[k].node.idx as u32);
            write_u32(w, oh_local[k]);
            write_str(w, label);
            assert(buf_bytes(*w) =~= before + pin_entry_bytes(
                g.output_seq()[k as int].node.idx as int,
                g.output_place(k as int),
                labels@[k as int]@,
            ));
        } else {
            assert(buf_bytes(*w) =~= before + Seq::<u8>::empty());
        }
        k = k + 1;
    }
}

fn write_comments(comments: &Vec<String>, w: &mut ByteBuf)
    ensures
        buf_bytes(*final(w)) == buf_bytes(*old(w)) + comments_bytes(comments@, comments@.len() as int),
{
    let ghost b0 = buf_bytes(*w);
    let mut k: usize = 0;
    while k < comments.len()
        invariant
            0 <= k <= comments@.len(),
            buf_bytes(*w) == b0 + comments_bytes(comments@, k as int),
        decreases comments@.len() - k,
    {
        let ghost before = buf_bytes(*w);
        let text = comments[k].as_str();
        if !text.is_empty() {
            write_u32(w, k as u32);
            write_str(w, text);
            assert(buf_bytes(*w) =~= before + (u32_bytes(k as u32) + str_bytes(comments@[k as int]@)));
        } else {
            assert(buf_bytes(*w) =~= before + Seq::<u8>::empty());
        }
        k = k + 1;
    }
}

fn write_outputs(g: &Graph, outs: &Vec<(OH, String)>, oh_local: &Vec<u32>, w: &mut ByteBuf)
    requires
        g.wf(),
        forall|k: int| 0 <= k < outs@.len() ==> (#[trigger] outs@[k]).0.idx < g.output_seq().len(),
        oh_local@ == Seq::new(g.output_seq().len(), |o: int| g.output_place(o) as u32),
    ensures
        buf_bytes(*final(w)) == buf_bytes(*old(w)) + outputs_bytes(*g, outs@, outs@.len() as int),
{
    let ghost b0 = buf_bytes(*w);
    let outputs = g.outputs();
    let mut k: usize = 0;
    while k < outs.len()
        invariant
            0 <= k <= outs@.len(),
            forall|k: int| 0 <= k < outs@.len() ==> (#[trigger] outs@[k]).0.idx < g.output_seq().len(),
            outputs@ == g.output_seq(),
            oh_local@ == Seq::new(g.output_seq().len(), |o: int| g.output_place(o) as u32),
            buf_bytes(*w) == b0 + outputs_bytes(*g, outs@, k as int),
        decreases outs@.len() - k,
    {
        let ghost before = buf_bytes(*w);
        let oh = outs[k].0;
        write_array_len(w, 3);
        write_u32(w, outputs[oh.idx].node.idx as u32);
        write_u32(w, oh_local[oh.idx]);
        write_str(w, outs[k].1.as_str());
        assert(buf_bytes(*w) =~= before + pin_entry_bytes(
            g.output_seq()[oh.idx as int].node.idx as int,
            g.output_place(oh.idx as int),
            outs@[k as int].1@,
        ));
        k = k + 1;
    }
}

fn write_strings(texts: &Vec<String>, w: &mut ByteBuf)
    ensures
        buf_bytes(*final(w)) == buf_bytes(*old(w)) + strings_bytes(texts@, texts@.len() as int),
{
    let ghost b0 = buf_bytes(*w);
    let mut k: usize = 0;
    while k < texts.len()
        invariant
            0 <= k <= texts@.len(),
            buf_bytes(*w) == b0 + strings_bytes(texts@, k as int),
        decreases texts@.len() - k,
    {
        let ghost before = buf_bytes(*w);
        write_str(w, texts[k].as_str());
        assert(buf_bytes(*w) =~= before + str_bytes(texts@[k as int]@));
        k = k + 1;
    }
}

fn write_input_index(g: &Graph, index: &Vec<Option<u32>>, ih_local: &Vec<u32>, w: &mut ByteBuf)
    requires
        g.wf(),
        index@.len() == g.input_seq().len(),
        ih_local@ == Seq::new(g.input_seq().len(), |i: int| g.input_place(i) as u32),
    ensures
        buf_bytes(*final(w)) == buf_bytes(*old(w)) + input_index_bytes(*g, index@, index@.len() as int),
{
    let ghost b0 = buf_bytes(*w);
    let inputs = g.inputs();
    let mut k: usize = 0;
    while k < index.len()
        invariant
            0 <= k <= index@.len(),
            index@.len() == g.input_seq().len(),
            inputs@ == g.input_seq(),
            ih_local@ == Seq::new(g.input_seq().len(), |i: int| g.input_place(i) as u32),
            buf_bytes(*w) == b0 + input_index_bytes(*g, index@, k as int),
        decreases index@.len() - k,
    {
        let ghost before = buf_bytes(*w);
        match index[k] {
            Some(wi) => {
                write_array_len(w, 3);
                write_u32(w, inputs[k].node.idx as u32);
                write_u32(w, ih_local[k]);
                write_u32(w, wi);
                assert(buf_bytes(*w) =~= before + (array_len_bytes(3) + u32_bytes(
                    g.input_seq()[k as int].node.idx as u32,
                ) + u32_bytes(g.input_place(k as int) as u32) + u32_bytes(wi)));
            },
            None => {
                assert(buf_bytes(*w) =~= before + Seq::<u8>::empty());
            },
        }
        k = k + 1;
    }
}

impl WorkflowLayout {
    /// Writes the `node_infos` entry.
    fn write_infos_section(&self, ih_local: &Vec<u32>, oh_local: &Vec<u32>, w: &mut ByteBuf)
        requires
            layout_fits(*self),
            ih_local@ == Seq::new(self.graph.input_seq().len(), |i: int| self.graph.input_place(i) as u32),
            oh_local@ == Seq::new(self.graph.output_seq().len(), |o: int| self.graph.output_place(o) as u32),
        ensures
            buf_bytes(*final(w)) == buf_bytes(*old(w)) + infos_section(*self),
    {
        proof {
            lemma_fits(*self);
        }
        let ghost p = buf_bytes(*w);
        write_str(w, "node_infos");
        write_array_len(w, self.node_infos.len() as u32);
        write_node_infos(&self.node_infos, w);
        assert(buf_bytes(*w) =~= p + infos_section(*self));
    }

    /// Writes the `input_labels` entry.
    fn write_input_labels_section(&self, ih_local: &Vec<u32>, oh_local: &Vec<u32>, w: &mut ByteBuf)
        requires
            layout_fits(*self),
            ih_local@ == Seq::new(self.graph.input_seq().len(), |i: int| self.graph.input_place(i) as u32),
            oh_local@ == Seq::new(self.graph.output_seq().len(), |o: int| self.graph.output_place(o) as u32),
        ensures
            buf_bytes(*final(w)) == buf_bytes(*old(w)) + input_labels_section(*self),
    {
        proof {
            lemma_fits(*self);
        }
        let ghost p = buf_bytes(*w);
        write_str(w, "input_labels");
        write_array_len(w, count_nonempty(&self.input_labels) as u32);
        write_input_labels(&self.graph, &self.input_labels, ih_local, w);
        assert(buf_bytes(*w) =~= p + input_labels_section(*self));
    }

    /// Writes the `output_labels` entry.
    fn write_output_labels_section(&self, ih_local: &Vec<u32>, oh_local: &Vec<u32>, w: &mut ByteBuf)
        requires
            layout_fits(*self),
            ih_local@ == Seq::new(self.graph.input_seq().len(), |i: int| self.graph.input_place(i) as u32),
            oh_local@ == Seq::new(self.graph.output_seq().len(), |o: int| self.graph.output_place(o) as u32),
        ensures
            buf_bytes(*final(w)) == buf_bytes(*old(w)) + output_labels_section(*self),
    {
        proof {
            lemma_fits(*self);
        }
        let ghost p = buf_bytes(*w);
        write_str(w, "output_labels");
        write_array_len(w, count_nonempty(&self.output_labels) as u32);
        write_output_labels(&self.graph, &self.output_labels, oh_local, w);
        assert(buf_bytes(*w) =~= p + output_labels_section(*self));
    }

    /// Writes the `node_comments` entry.
    fn write_comments_section(&self, ih_local: &Vec<u32>, oh_local: &Vec<u32>, w: &mut ByteBuf)
        requires
            layout_fits(*self),
            ih_local@ == Seq::new(self.graph.input_seq().len(), |i: int| self.graph.input_place(i) as u32),
            oh_local@ == Seq::new(self.graph.output_seq().len(), |o: int| self.graph.output_place(o) as u32),
        ensures
            buf_bytes(*final(w)) == buf_bytes(*old(w)) + comments_section(*self),
    {
        proof {
            lemma_fits(*self);
        }
        let ghost p = buf_bytes(*w);
        write_str(w, "node_comments");
        write_map_len(w, count_nonempty(&self.node_comments) as u32);
        write_comments(&self.node_comments, w);
        assert(buf_bytes(*w) =~= p + comments_section(*self));
    }

    /// Writes the `workflow_outputs` entry.
    fn write_outputs_section(&self, ih_local: &Vec<u32>, oh_local: &Vec<u32>, w: &mut ByteBuf)
        requires
            layout_fits(*self),
            ih_local@ == Seq::new(self.graph.input_seq().len(), |i: int| self.graph.input_place(i) as u32),
            oh_local@ == Seq::new(self.graph.output_seq().len(), |o: int| self.graph.output_place(o) as u32),
        ensures
            buf_bytes(*final(w)) == buf_bytes(*old(w)) + outputs_section(*self),
    {
        proof {
            lemma_fits(*self);
        }
        let ghost p = buf_bytes(*w);
        write_str(w, "workflow_outputs");
        write_array_len(w, self.workflow_outputs.len() as u32);
        write_outputs(&self.graph, &self.workflow_outputs, oh_local, w);
        assert(buf_bytes(*w) =~= p + outputs_section(*self));
    }

    /// Writes the `workflow_input_names` entry.
    fn write_names_section(&self, ih_local: &Vec<u32>, oh_local: &Vec<u32>, w: &mut ByteBuf)
        requires
            layout_fits(*self),
            ih_local@ == Seq::new(self.graph.input_seq().len(), |i: int| self.graph.input_place(i) as u32),
            oh_local@ == Seq::new(self.graph.output_seq().len(), |o: int| self.graph.output_place(o) as u32),
        ensures
            buf_bytes(*final(w)) == buf_bytes(*old(w)) + names_section(*self),
    {
        proof {
            lemma_fits(*self);
        }
        let ghost p = buf_bytes(*w);
        write_str(w, "workflow_input_names");
        write_array_len(w, self.workflow_input_names.len() as u32);
        write_strings(&self.workflow_input_names, w);
        assert(buf_bytes(*w) =~= p + names_section(*self));
    }

    /// Writes the `workflow_input_index` entry.
    fn write_index_section(&self, ih_local: &Vec<u32>, oh_local: &Vec<u32>, w: &mut ByteBuf)
        requires
            layout_fits(*self),
            ih_local@ == Seq::new(self.graph.input_seq().len(), |i: int| self.graph.input_place(i) as u32),
            oh_local@ == Seq::new(self.graph.output_seq().len(), |o: int| self.graph.output_place(o) as u32),
        ensures
            buf_bytes(*final(w)) == buf_bytes(*old(w)) + index_section(*self),
    {
        proof {
            lemma_fits(*self);
        }
        let ghost p = buf_bytes(*w);
        write_str(w, "workflow_input_index");
        write_array_len(w, count_mapped(&self.workflow_input_index) as u32);
        write_input_index(&self.graph, &self.workflow_input_index, ih_local, w);
        assert(buf_bytes(*w) =~= p + index_section(*self));
    }

    /// Writes the entries from `node_infos` to `workflow_input_index`.
    fn write_sections(&self, ih_local: &Vec<u32>, oh_local: &Vec<u32>, w: &mut ByteBuf)
        requires
            layout_fits(*self),
            ih_local@ == Seq::new(self.graph.input_seq().len(), |i: int| self.graph.input_place(i) as u32),
            oh_local@ == Seq::new(self.graph.output_seq().len(), |o: int| self.graph.output_place(o) as u32),
        ensures
            buf_bytes(*final(w)) == buf_bytes(*old(w)) + sections_bytes(*self),
    {
        let ghost b = buf_bytes(*w);
        self.write_infos_section(ih_local, oh_local, w);
        self.write_input_labels_section(ih_local, oh_local, w);
        self.write_output_labels_section(ih_local, oh_local, w);
        self.write_comments_section(ih_local, oh_local, w);
        self.write_outputs_section(ih_local, oh_local, w);
        self.write_names_section(ih_local, oh_local, w);
        self.write_index_section(ih_local, oh_local, w);
        assert(buf_bytes(*w) =~= b + sections_bytes(*self)) by {
            reveal(sections_bytes);
        }
    }

    /// The workflow file of this workflow, as a vector of bytes; refused
    /// with `GarbageCollectionRequired` as `write_to_msgpack` refuses it.
    pub fn to_msgpack_bytes(&self) -> (r: Result<Vec<u8>, DagError>)
        requires
            layout_fits(*self),
        ensures
            r is Ok <==> layout_collected(*self),
            r is Err ==> r == Err::<Vec<u8>, DagError>(DagError::GarbageCollectionRequired),
            r is Ok ==> r->Ok_0@ == workflow_bytes(*self),
    {
        let mut buf = new_buf();
        match self.write_to_msgpack(&mut buf) {
            Ok(()) => {
                let v = buf_into_vec(buf);
                assert(v@ =~= workflow_bytes(*self));
                Ok(v)
            },
            Err(e) => Err(e),
        }
    }


    /// Writes the workflow file: the ten keyed entries in order, with only
    /// the non-empty labels and comments and the input pins that feed a
    /// workflow input, and each nested workflow as a `[name, workflow]`
    /// pair. `GarbageCollectionRequired` when a graph, here or in a nested
    /// workflow, holds deleted elements; the bytes written before the
    /// refusal stay in `w`.
    pub fn write_to_msgpack(&self, w: &mut ByteBuf) -> (r: Result<(), DagError>)
        requires
            layout_fits(*self),
        ensures
            r is Ok <==> layout_collected(*self),
            r is Err ==> r == Err::<(), DagError>(DagError::GarbageCollectionRequired),
            r is Ok ==> buf_bytes(*final(w)) == buf_bytes(*old(w)) + workflow_bytes(*self),
        decreases self,
    {
        proof {
            lemma_fits(*self);
        }
        let ghost b0 = buf_bytes(*w);
        write_map_len(w, 10);
        write_str(w, "version");
        write_u64(w, WORKFLOW_MSGPACK_VERSION_CURRENT);
        write_str(w, "graph");
        let mut oh_local: Vec<u32> = Vec::new();
        let mut ih_local: Vec<u32> = Vec::new();
        match self.graph.write_to_msgpack(w, &mut oh_local, &mut ih_local) {
            Ok(()) => {},
            Err(e) => {
                proof {
                    lemma_collected(*self);
                }
                return Err(e);
            },
        }
        let ghost b1 = buf_bytes(*w);
        assert(b1 =~= b0 + head_bytes(self.graph)) by {
            reveal(head_bytes);
        }
        self.write_sections(&ih_local, &oh_local, w);
        write_str(w, "nested_workflows");
        write_array_len(w, self.nested_workflows.len() as u32);
        let ghost b2 = buf_bytes(*w);
        let r = write_nested(&self.nested_workflows, w);
        proof {
            lemma_collected(*self);
        }
        match r {
            Ok(()) => {},
            Err(e) => {
                return Err(e);
            },
        }
        proof {
            assert(buf_bytes(*w) =~= b0 + workflow_bytes(*self));
        }
        Ok(())
    }
}

fn write_nested(nested: &Vec<(String, WorkflowLayout)>, w: &mut ByteBuf) -> (r: Result<(), DagError>)
    requires
        forall|k: int| 0 <= k < nested@.len() ==> layout_fits((#[trigger] nested@[k]).1),
    ensures
        r is Ok <==> forall|k: int| 0 <= k < nested@.len() ==> layout_collected((#[trigger] nested@[k]).1),
        r is Err ==> r == Err::<(), DagError>(DagError::GarbageCollectionRequired),
        r is Ok ==> buf_bytes(*final(w)) == buf_bytes(*old(w)) + nested_bytes(nested@),
    decreases nested,
{
    let ghost b2 = buf_bytes(*w);
    let mut k: usize = 0;
    while k < nested.len()
        invariant
            0 <= k <= nested@.len(),
            forall|k: int| 0 <= k < nested@.len() ==> layout_fits((#[trigger] nested@[k]).1),
            forall|j: int| 0 <= j < k ==> layout_collected(#[trigger] nested@[j].1),
            buf_bytes(*w) == b2 + nested_bytes(nested@.take(k as int)),
        decreases nested@.len() - k,
    {
        let ghost before = buf_bytes(*w);
        write_array_len(w, 2);
        write_str(w, nested[k].0.as_str());
        let inner = &nested[k].1;
        assert(layout_fits(nested@[k as int].1));
        match inner.write_to_msgpack(w) {
            Ok(()) => {},
            Err(e) => {
                return Err(e);
            },
        }
        proof {
            let t = nested@.take(k + 1);
            assert(t.drop_last() =~= nested@.take(k as int));
            assert(buf_bytes(*w) =~= before + array_len_bytes(2) + str_bytes(nested@[k as int].0@)
                + workflow_bytes(nested@[k as int].1));
        }
        k = k + 1;
    }
    proof {
        assert(nested@.take(nested@.len() as int) =~= nested@);
    }
    Ok(())
}

} // verus!
