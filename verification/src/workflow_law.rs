//! What a read of a written workflow file gives back.
use vstd::prelude::*;

use vstd::seq_lib::lemma_concat_associative;

use vstd::utf8::{encode_utf8, encode_utf8_decode_utf8, encode_utf8_valid_utf8};

use crate::error::DagError;
use crate::graph::{Graph, OH};
use crate::graph_io::{law_graph_bytes_read_back, layout_bytes, link_fits, links_fit};
use crate::msgpack::{
    array_len_bytes, array_len_read, be_bytes, lemma_array_len_roundtrip, lemma_be_roundtrip, lemma_byte_limits,
    lemma_u32_roundtrip, lemma_u64_roundtrip, u32_bytes, u64_bytes, u64_read,
};
use crate::workflow_io::{
    bin_len_bytes, comments_bytes, comments_section, head_bytes, index_section, infos_section, input_index_bytes,
    input_labels_bytes, input_labels_section, key_bytes, layout_collected, layout_fits, lemma_collected, lemma_fits,
    map_len_bytes, mapped_count, names_section, nested_bytes, node_info_bytes, node_infos_bytes, nonempty_count,
    output_labels_bytes, output_labels_section, outputs_bytes, outputs_section, pin_entry_bytes, section,
    sections_bytes, str_bytes, str_len_bytes, strings_bytes, workflow_bytes, NodeLayout, WorkflowLayout,
    WORKFLOW_MSGPACK_VERSION_CURRENT,
};
use crate::workflow_read::{
    array_res, bin_read, comments_read, first_read, head_read, header_res, index_entry_read, index_read, infos_read,
    input_lens, key_res, labels_read, map_res, nested_read, node_info_read, node_view, output_lens, outputs_read,
    pin_entry_read, pin_ok, second_read, str_len_read, str_res, strings_read, u32_res, workflow_read, NodeView,
    WorkflowEntries,
};

verus! {

/// A map header is read back as the length it was written for.
proof fn lemma_map_len_roundtrip(len: u32, rest: Seq<u8>)
    ensures
        map_res(map_len_bytes(len) + rest) == Ok::<(u32, Seq<u8>), DagError>((len, rest)),
{
    lemma_byte_limits();
    let b = map_len_bytes(len);
    let s = b + rest;
    if len < 16 {
        assert(s[0] == (0x80 + len) as u8);
    } else if len < 0x10000 {
        lemma_be_roundtrip(len as nat, 2);
        assert(s.subrange(1, 3) =~= be_bytes(len as nat, 2));
    } else {
        lemma_be_roundtrip(len as nat, 4);
        assert(s.subrange(1, 5) =~= be_bytes(len as nat, 4));
    }
    assert(s.skip(b.len() as int) =~= rest);
}

/// An array header is read back as the length it was written for.
proof fn lemma_array_res_roundtrip(len: u32, rest: Seq<u8>)
    ensures
        array_res(array_len_bytes(len) + rest) == Ok::<(u32, Seq<u8>), DagError>((len, rest)),
        header_res(array_len_bytes(len) + rest, len) == Ok::<Seq<u8>, DagError>(rest),
{
    lemma_array_len_roundtrip(len, rest);
}

/// A `u32` item is read back as its value.
proof fn lemma_u32_res_roundtrip(v: u32, rest: Seq<u8>)
    ensures
        u32_res(u32_bytes(v) + rest) == Ok::<(u32, Seq<u8>), DagError>((v, rest)),
{
    lemma_u32_roundtrip(v, rest);
}

/// A string header for `len` bytes, followed by `rest`, is read as `len`
/// and the bytes the header takes.
proof fn lemma_str_len_roundtrip(len: u32, rest: Seq<u8>)
    ensures
        str_len_read(str_len_bytes(len) + rest) == Some((len, str_len_bytes(len).len())),
{
    lemma_byte_limits();
    let s = str_len_bytes(len) + rest;
    if len < 32 {
        assert(s[0] == (0xa0 + len) as u8);
    } else if len < 256 {
        assert(s[0] == 0xd9 && s[1] == len as u8);
    } else if len < 0x10000 {
        lemma_be_roundtrip(len as nat, 2);
        assert(s.subrange(1, 3) =~= be_bytes(len as nat, 2));
    } else {
        lemma_be_roundtrip(len as nat, 4);
        assert(s.subrange(1, 5) =~= be_bytes(len as nat, 4));
    }
}

/// A string whose UTF-8 bytes fit a header is read back as itself.
pub proof fn lemma_str_roundtrip(x: Seq<char>, rest: Seq<u8>)
    requires
        encode_utf8(x).len() <= u32::MAX,
    ensures
        str_res(str_bytes(x) + rest) == Ok::<(Seq<char>, Seq<u8>), DagError>((x, rest)),
{
    let b = encode_utf8(x);
    let n = b.len() as u32;
    let h = str_len_bytes(n);
    let s = str_bytes(x) + rest;
    assert(s =~= h + (b + rest));
    lemma_str_len_roundtrip(n, b + rest);
    assert(s.subrange(h.len() as int, h.len() + n) =~= b);
    encode_utf8_valid_utf8(x);
    encode_utf8_decode_utf8(x);
    assert(s.skip(h.len() + n) =~= rest);
}

/// A key is read back as itself.
proof fn lemma_key_roundtrip(x: Seq<char>, rest: Seq<u8>)
    requires
        encode_utf8(x).len() <= u32::MAX,
    ensures
        key_res(str_bytes(x) + rest, x) == Ok::<Seq<u8>, DagError>(rest),
{
    lemma_str_roundtrip(x, rest);
}

/// Binary data that fits a header is read back as itself.
proof fn lemma_bin_roundtrip(d: Seq<u8>, rest: Seq<u8>)
    requires
        d.len() <= u32::MAX,
    ensures
        bin_read(bin_len_bytes(d.len() as u32) + d + rest) == Some((d, (bin_len_bytes(d.len() as u32).len() + d.len()) as nat)),
        (bin_len_bytes(d.len() as u32) + d + rest).skip((bin_len_bytes(d.len() as u32).len() + d.len()) as int) == rest,
{
    lemma_byte_limits();
    let n = d.len() as u32;
    let h = bin_len_bytes(n);
    let s = h + d + rest;
    if n < 256 {
        assert(s[0] == 0xc4 && s[1] == n as u8);
    } else if n < 0x10000 {
        lemma_be_roundtrip(n as nat, 2);
        assert(s.subrange(1, 3) =~= be_bytes(n as nat, 2));
    } else {
        lemma_be_roundtrip(n as nat, 4);
        assert(s.subrange(1, 5) =~= be_bytes(n as nat, 4));
    }
    assert(s.subrange(h.len() as int, h.len() + n) =~= d);
    assert(s.skip(h.len() + n) =~= rest);
}

/// Reading one more node entry after `n` of them.
proof fn lemma_infos_snoc(s: Seq<u8>, n: nat, vs: Seq<NodeView>, t: Seq<u8>, v: NodeView, r: Seq<u8>)
    requires
        infos_read(s, n) == Ok::<(Seq<NodeView>, Seq<u8>), DagError>((vs, t)),
        node_info_read(t) == Ok::<(NodeView, Seq<u8>), DagError>((v, r)),
    ensures
        infos_read(s, n + 1) == Ok::<(Seq<NodeView>, Seq<u8>), DagError>((vs.push(v), r)),
    decreases n,
{
    if n == 0 {
        assert(seq![v] + Seq::<NodeView>::empty() =~= vs.push(v));
    } else {
        let (v0, s1) = node_info_read(s)->Ok_0;
        let (vs1, t1) = infos_read(s1, (n - 1) as nat)->Ok_0;
        lemma_infos_snoc(s1, (n - 1) as nat, vs1, t1, v, r);
        assert(infos_read(s1, n) == Ok::<(Seq<NodeView>, Seq<u8>), DagError>((vs1.push(v), r)));
        assert(seq![v0] + vs1.push(v) =~= vs.push(v));
    }
}

/// Reading one more label entry, naming a pin that is there, after `n`.
proof fn lemma_labels_snoc(
    s: Seq<u8>,
    n: nat,
    lens: Seq<int>,
    vs: Seq<(u32, u32, Seq<char>)>,
    t: Seq<u8>,
    v: (u32, u32, Seq<char>),
    r: Seq<u8>,
)
    requires
        labels_read(s, n, lens) == Ok::<(Seq<(u32, u32, Seq<char>)>, Seq<u8>), DagError>((vs, t)),
        pin_entry_read(t) == Ok::<((u32, u32, Seq<char>), Seq<u8>), DagError>((v, r)),
        pin_ok(lens, v.0, v.1),
    ensures
        labels_read(s, n + 1, lens) == Ok::<(Seq<(u32, u32, Seq<char>)>, Seq<u8>), DagError>((vs.push(v), r)),
    decreases n,
{
    if n == 0 {
        assert(vs == Seq::<(u32, u32, Seq<char>)>::empty() && t == s);
        assert(labels_read(r, 0, lens) == Ok::<(Seq<(u32, u32, Seq<char>)>, Seq<u8>), DagError>((Seq::empty(), r)));
        assert(seq![v] + Seq::<(u32, u32, Seq<char>)>::empty() =~= vs.push(v));
    } else {
        let (v0, s1) = pin_entry_read(s)->Ok_0;
        let (vs1, t1) = labels_read(s1, (n - 1) as nat, lens)->Ok_0;
        lemma_labels_snoc(s1, (n - 1) as nat, lens, vs1, t1, v, r);
        assert(labels_read(s1, n, lens) == Ok::<(Seq<(u32, u32, Seq<char>)>, Seq<u8>), DagError>((vs1.push(v), r)));
        assert(((n + 1) as nat - 1) as nat == n);
        assert(seq![v0] + vs1.push(v) =~= vs.push(v));
    }
}

/// Reading one more comment entry, naming a node that is there, after `n`.
proof fn lemma_comments_snoc(
    s: Seq<u8>,
    n: nat,
    n_nodes: int,
    vs: Seq<(u32, Seq<char>)>,
    t: Seq<u8>,
    node: u32,
    t1: Seq<u8>,
    text: Seq<char>,
    r: Seq<u8>,
)
    requires
        comments_read(s, n, n_nodes) == Ok::<(Seq<(u32, Seq<char>)>, Seq<u8>), DagError>((vs, t)),
        u32_res(t) == Ok::<(u32, Seq<u8>), DagError>((node, t1)),
        node < n_nodes,
        str_res(t1) == Ok::<(Seq<char>, Seq<u8>), DagError>((text, r)),
    ensures
        comments_read(s, n + 1, n_nodes) == Ok::<(Seq<(u32, Seq<char>)>, Seq<u8>), DagError>((vs.push((node, text)), r)),
    decreases n,
{
    if n == 0 {
        assert(vs == Seq::<(u32, Seq<char>)>::empty() && t == s);
        assert(comments_read(r, 0, n_nodes) == Ok::<(Seq<(u32, Seq<char>)>, Seq<u8>), DagError>((Seq::empty(), r)));
        assert(comments_read(s, 1, n_nodes) == Ok::<(Seq<(u32, Seq<char>)>, Seq<u8>), DagError>((seq![(node, text)] + Seq::empty(), r)));
        assert(seq![(node, text)] + Seq::<(u32, Seq<char>)>::empty() =~= vs.push((node, text)));
    } else {
        let (n0, a) = u32_res(s)->Ok_0;
        let (x0, b) = str_res(a)->Ok_0;
        let (vs1, tt) = comments_read(b, (n - 1) as nat, n_nodes)->Ok_0;
        lemma_comments_snoc(b, (n - 1) as nat, n_nodes, vs1, tt, node, t1, text, r);
        assert(comments_read(b, n, n_nodes) == Ok::<(Seq<(u32, Seq<char>)>, Seq<u8>), DagError>((vs1.push((node, text)), r)));
        assert(((n + 1) as nat - 1) as nat == n);
        assert(seq![(n0, x0)] + vs1.push((node, text)) =~= vs.push((node, text)));
    }
}

/// The pins named by output entries.
pub open spec fn entry_pins(vs: Seq<(u32, u32, Seq<char>)>) -> Seq<(u32, u32)> {
    vs.map_values(|e: (u32, u32, Seq<char>)| (e.0, e.1))
}

/// Reading one more workflow output entry, naming a pin that is there and
/// that no earlier entry names, after `n`.
proof fn lemma_outputs_snoc(
    s: Seq<u8>,
    n: nat,
    lens: Seq<int>,
    seen: Seq<(u32, u32)>,
    vs: Seq<(u32, u32, Seq<char>)>,
    t: Seq<u8>,
    v: (u32, u32, Seq<char>),
    r: Seq<u8>,
)
    requires
        outputs_read(s, n, lens, seen) == Ok::<(Seq<(u32, u32, Seq<char>)>, Seq<u8>), DagError>((vs, t)),
        pin_entry_read(t) == Ok::<((u32, u32, Seq<char>), Seq<u8>), DagError>((v, r)),
        pin_ok(lens, v.0, v.1),
        !(seen + entry_pins(vs)).contains((v.0, v.1)),
    ensures
        outputs_read(s, n + 1, lens, seen) == Ok::<(Seq<(u32, u32, Seq<char>)>, Seq<u8>), DagError>((vs.push(v), r)),
    decreases n,
{
    if n == 0 {
        assert(vs == Seq::<(u32, u32, Seq<char>)>::empty() && t == s);
        assert(seen + entry_pins(vs) =~= seen);
        assert(!seen.contains((v.0, v.1)));
        assert(outputs_read(r, 0, lens, seen.push((v.0, v.1))) == Ok::<(Seq<(u32, u32, Seq<char>)>, Seq<u8>), DagError>((Seq::empty(), r)));
        assert(seq![v] + Seq::<(u32, u32, Seq<char>)>::empty() =~= vs.push(v));
    } else {
        let (v0, s1) = pin_entry_read(s)->Ok_0;
        let seen1 = seen.push((v0.0, v0.1));
        let (vs1, t1) = outputs_read(s1, (n - 1) as nat, lens, seen1)->Ok_0;
        assert(vs == seq![v0] + vs1);
        assert(seen1 + entry_pins(vs1) =~= seen + entry_pins(vs));
        lemma_outputs_snoc(s1, (n - 1) as nat, lens, seen1, vs1, t1, v, r);
        assert(outputs_read(s1, n, lens, seen1) == Ok::<(Seq<(u32, u32, Seq<char>)>, Seq<u8>), DagError>((vs1.push(v), r)));
        assert(((n + 1) as nat - 1) as nat == n);
        assert(seq![v0] + vs1.push(v) =~= vs.push(v));
    }
}

/// Reading one more string after `n`.
proof fn lemma_strings_snoc(s: Seq<u8>, n: nat, vs: Seq<Seq<char>>, t: Seq<u8>, v: Seq<char>, r: Seq<u8>)
    requires
        strings_read(s, n) == Ok::<(Seq<Seq<char>>, Seq<u8>), DagError>((vs, t)),
        str_res(t) == Ok::<(Seq<char>, Seq<u8>), DagError>((v, r)),
    ensures
        strings_read(s, n + 1) == Ok::<(Seq<Seq<char>>, Seq<u8>), DagError>((vs.push(v), r)),
    decreases n,
{
    if n == 0 {
        assert(seq![v] + Seq::<Seq<char>>::empty() =~= vs.push(v));
    } else {
        let (v0, s1) = str_res(s)->Ok_0;
        let (vs1, t1) = strings_read(s1, (n - 1) as nat)->Ok_0;
        lemma_strings_snoc(s1, (n - 1) as nat, vs1, t1, v, r);
        assert(strings_read(s1, n) == Ok::<(Seq<Seq<char>>, Seq<u8>), DagError>((vs1.push(v), r)));
        assert(((n + 1) as nat - 1) as nat == n);
        assert(seq![v0] + vs1.push(v) =~= vs.push(v));
    }
}

/// Reading one more workflow input entry after `n`.
proof fn lemma_index_snoc(
    s: Seq<u8>,
    n: nat,
    lens: Seq<int>,
    n_names: int,
    vs: Seq<(u32, u32, u32)>,
    t: Seq<u8>,
    v: (u32, u32, u32),
    r: Seq<u8>,
)
    requires
        index_read(s, n, lens, n_names) == Ok::<(Seq<(u32, u32, u32)>, Seq<u8>), DagError>((vs, t)),
        index_entry_read(t) == Ok::<((u32, u32, u32), Seq<u8>), DagError>((v, r)),
        v.2 < n_names,
        pin_ok(lens, v.0, v.1),
    ensures
        index_read(s, n + 1, lens, n_names) == Ok::<(Seq<(u32, u32, u32)>, Seq<u8>), DagError>((vs.push(v), r)),
    decreases n,
{
    if n == 0 {
        assert(vs == Seq::<(u32, u32, u32)>::empty() && t == s);
        assert(index_read(r, 0, lens, n_names) == Ok::<(Seq<(u32, u32, u32)>, Seq<u8>), DagError>((Seq::empty(), r)));
        assert(seq![v] + Seq::<(u32, u32, u32)>::empty() =~= vs.push(v));
    } else {
        let (v0, s1) = index_entry_read(s)->Ok_0;
        let (vs1, t1) = index_read(s1, (n - 1) as nat, lens, n_names)->Ok_0;
        lemma_index_snoc(s1, (n - 1) as nat, lens, n_names, vs1, t1, v, r);
        assert(index_read(s1, n, lens, n_names) == Ok::<(Seq<(u32, u32, u32)>, Seq<u8>), DagError>((vs1.push(v), r)));
        assert(((n + 1) as nat - 1) as nat == n);
        assert(seq![v0] + vs1.push(v) =~= vs.push(v));
    }
}

/// The UTF-8 bytes of `s` fit a string header.
pub open spec fn text_fits(s: Seq<char>) -> bool {
    encode_utf8(s).len() <= u32::MAX
}

/// What a node entry holds fits its header.
pub open spec fn node_fits(n: NodeLayout) -> bool {
    match n {
        NodeLayout::Constant { type_id: _, data } => data@.len() <= u32::MAX,
        NodeLayout::Function { name } => text_fits(name@),
        NodeLayout::NestedCall { workflow_name } => text_fits(workflow_name@),
        NodeLayout::Inspect { label } => text_fits(label@),
    }
}

/// `w` reads back as written: every count and every string fits the `u32`
/// the format gives it, no output pin is named twice among the workflow
/// outputs, every input pin that feeds a workflow input names one of the
/// workflow inputs, and the nested workflows read back too.
#[verifier::opaque]
pub open spec fn layout_readable(w: WorkflowLayout) -> bool
    decreases w,
{
    let g = w.graph;
    &&& g.counts_fit()
    &&& g.input_seq().len() <= u32::MAX
    &&& g.output_seq().len() <= u32::MAX
    &&& w.workflow_outputs@.len() <= u32::MAX
    &&& w.workflow_input_names@.len() <= u32::MAX
    &&& w.nested_workflows@.len() <= u32::MAX
    &&& forall|k: int| 0 <= k < w.node_infos@.len() ==> node_fits(#[trigger] w.node_infos@[k])
    &&& forall|k: int| 0 <= k < w.input_labels@.len() ==> text_fits((#[trigger] w.input_labels@[k])@)
    &&& forall|k: int| 0 <= k < w.output_labels@.len() ==> text_fits((#[trigger] w.output_labels@[k])@)
    &&& forall|k: int| 0 <= k < w.node_comments@.len() ==> text_fits((#[trigger] w.node_comments@[k])@)
    &&& forall|k: int| 0 <= k < w.workflow_input_names@.len() ==> text_fits((#[trigger] w.workflow_input_names@[k])@)
    &&& forall|k: int| 0 <= k < w.workflow_outputs@.len() ==> text_fits((#[trigger] w.workflow_outputs@[k]).1@)
    &&& forall|a: int, b: int|
        0 <= a < b < w.workflow_outputs@.len() ==> (#[trigger] w.workflow_outputs@[a]).0 != (
        #[trigger] w.workflow_outputs@[b]).0
    &&& forall|k: int|
        0 <= k < w.workflow_input_index@.len() && (#[trigger] w.workflow_input_index@[k]) is Some
            ==> w.workflow_input_index@[k]->0 < w.workflow_input_names@.len()
    &&& forall|k: int|
        0 <= k < w.nested_workflows@.len() ==> text_fits((#[trigger] w.nested_workflows@[k]).0@)
            && layout_readable(w.nested_workflows@[k].1)
}

/// The label entries of the first `k` input pins with a non-empty label.
pub open spec fn input_label_entries(g: Graph, labels: Seq<String>, k: int) -> Seq<(u32, u32, Seq<char>)>
    decreases k,
{
    if k <= 0 {
        Seq::empty()
    } else {
        input_label_entries(g, labels, k - 1) + if labels[k - 1]@.len() == 0 {
            Seq::empty()
        } else {
            seq![(g.input_seq()[k - 1].node.idx as u32, g.input_place(k - 1) as u32, labels[k - 1]@)]
        }
    }
}

/// The label entries of the first `k` output pins with a non-empty label.
pub open spec fn output_label_entries(g: Graph, labels: Seq<String>, k: int) -> Seq<(u32, u32, Seq<char>)>
    decreases k,
{
    if k <= 0 {
        Seq::empty()
    } else {
        output_label_entries(g, labels, k - 1) + if labels[k - 1]@.len() == 0 {
            Seq::empty()
        } else {
            seq![(g.output_seq()[k - 1].node.idx as u32, g.output_place(k - 1) as u32, labels[k - 1]@)]
        }
    }
}

/// The comment entries of the first `k` nodes with a non-empty comment.
pub open spec fn comment_entries(comments: Seq<String>, k: int) -> Seq<(u32, Seq<char>)>
    decreases k,
{
    if k <= 0 {
        Seq::empty()
    } else {
        comment_entries(comments, k - 1) + if comments[k - 1]@.len() == 0 {
            Seq::empty()
        } else {
            seq![((k - 1) as u32, comments[k - 1]@)]
        }
    }
}

/// The entry of workflow output `k`: its pin by node and place, and its name.
pub open spec fn output_entry(g: Graph, outs: Seq<(OH, String)>, k: int) -> (u32, u32, Seq<char>) {
    (
        g.output_seq()[outs[k].0.idx as int].node.idx as u32,
        g.output_place(outs[k].0.idx as int) as u32,
        outs[k].1@,
    )
}

/// The entries of the first `k` input pins that feed a workflow input.
pub open spec fn index_entries(g: Graph, index: Seq<Option<u32>>, k: int) -> Seq<(u32, u32, u32)>
    decreases k,
{
    if k <= 0 {
        Seq::empty()
    } else {
        index_entries(g, index, k - 1) + match index[k - 1] {
            Some(x) => seq![(g.input_seq()[k - 1].node.idx as u32, g.input_place(k - 1) as u32, x)],
            None => Seq::empty(),
        }
    }
}

/// What the file of `w` holds, entry by entry.
pub open spec fn entries_of(w: WorkflowLayout) -> WorkflowEntries
    decreases w,
{
    let g = w.graph;
    WorkflowEntries {
        nodes: g.layout_nodes(),
        links: g.layout_links(),
        infos: Seq::new(w.node_infos@.len(), |j: int| node_view(w.node_infos@[j])),
        input_labels: input_label_entries(g, w.input_labels@, w.input_labels@.len() as int),
        output_labels: output_label_entries(g, w.output_labels@, w.output_labels@.len() as int),
        comments: comment_entries(w.node_comments@, w.node_comments@.len() as int),
        outputs: Seq::new(w.workflow_outputs@.len(), |j: int| output_entry(g, w.workflow_outputs@, j)),
        names: Seq::new(w.workflow_input_names@.len(), |j: int| w.workflow_input_names@[j]@),
        index: index_entries(g, w.workflow_input_index@, w.workflow_input_index@.len() as int),
        nested: nested_entries(w.nested_workflows@),
    }
}

/// The entries of the nested workflows, by name.
pub open spec fn nested_entries(nested: Seq<(String, WorkflowLayout)>) -> Seq<(Seq<char>, WorkflowEntries)>
    decreases nested,
{
    if nested.len() == 0 {
        Seq::empty()
    } else {
        let last = nested[nested.len() - 1];
        nested_entries(nested.drop_last()).push((last.0@, entries_of(last.1)))
    }
}

/// A UTF-8 encoding takes at most four bytes a character.
proof fn lemma_utf8_len(s: Seq<char>)
    ensures
        encode_utf8(s).len() <= 4 * s.len(),
    decreases s.len(),
{
    if s.len() > 0 {
        lemma_utf8_len(s.drop_first());
    }
}

/// A constant entry is read back as its type and its bytes.
proof fn lemma_constant_roundtrip(type_id: u64, d: Seq<u8>, r: Seq<u8>)
    requires
        d.len() <= u32::MAX,
    ensures
        node_info_read(array_len_bytes(3) + u32_bytes(0) + u64_bytes(type_id) + bin_len_bytes(d.len() as u32) + d + r)
            == Ok::<(NodeView, Seq<u8>), DagError>((NodeView::Constant(type_id, d), r)),
{
    let s = array_len_bytes(3) + u32_bytes(0) + u64_bytes(type_id) + bin_len_bytes(d.len() as u32) + d + r;
    let b = bin_len_bytes(d.len() as u32) + d + r;
    let t = u64_bytes(type_id) + b;
    let a = u32_bytes(0) + t;
    assert(s =~= array_len_bytes(3) + a);
    lemma_array_len_roundtrip(3, a);
    lemma_u32_res_roundtrip(0, t);
    lemma_u64_roundtrip(type_id, b);
    lemma_bin_roundtrip(d, r);
    let c = (bin_len_bytes(d.len() as u32).len() + d.len()) as nat;
    assert(array_len_read(s) == Some((3u32, array_len_bytes(3).len())));
    assert(s.skip(array_len_bytes(3).len() as int) == a);
    assert(u32_res(a) == Ok::<(u32, Seq<u8>), DagError>((0u32, t)));
    assert(u64_read(t) == Some((type_id, 9nat)));
    assert(t.skip(9) == b);
    assert(bin_read(b) == Some((d, c)));
    assert(b.skip(c as int) == r);
}

/// An entry `[tag, text]` is read back as the node its tag names.
proof fn lemma_tagged_roundtrip(tag: u32, text: Seq<char>, r: Seq<u8>)
    requires
        1 <= tag <= 3,
        text_fits(text),
    ensures
        node_info_read(array_len_bytes(2) + u32_bytes(tag) + str_bytes(text) + r) == Ok::<(NodeView, Seq<u8>), DagError>(
            (
                if tag == 1 {
                    NodeView::Function(text)
                } else if tag == 2 {
                    NodeView::NestedCall(text)
                } else {
                    NodeView::Inspect(text)
                },
                r,
            ),
        ),
{
    let s = array_len_bytes(2) + u32_bytes(tag) + str_bytes(text) + r;
    let t = str_bytes(text) + r;
    let a = u32_bytes(tag) + t;
    assert(s =~= array_len_bytes(2) + a);
    lemma_array_len_roundtrip(2, a);
    lemma_u32_res_roundtrip(tag, t);
    lemma_str_roundtrip(text, r);
    assert(array_len_read(s) == Some((2u32, array_len_bytes(2).len())));
    assert(s.skip(array_len_bytes(2).len() as int) == a);
}

/// A node entry is read back as what the node holds.
proof fn lemma_node_info_roundtrip(n: NodeLayout, r: Seq<u8>)
    requires
        node_fits(n),
    ensures
        node_info_read(node_info_bytes(n) + r) == Ok::<(NodeView, Seq<u8>), DagError>((node_view(n), r)),
{
    match n {
        NodeLayout::Constant { type_id, data } => lemma_constant_roundtrip(type_id, data@, r),
        NodeLayout::Function { name } => lemma_tagged_roundtrip(1, name@, r),
        NodeLayout::NestedCall { workflow_name } => lemma_tagged_roundtrip(2, workflow_name@, r),
        NodeLayout::Inspect { label } => lemma_tagged_roundtrip(3, label@, r),
    }
}

/// A pin entry is read back as its node, its place and its text.
proof fn lemma_pin_entry_roundtrip(node: int, place: int, text: Seq<char>, r: Seq<u8>)
    requires
        text_fits(text),
    ensures
        pin_entry_read(pin_entry_bytes(node, place, text) + r) == Ok::<((u32, u32, Seq<char>), Seq<u8>), DagError>(
            ((node as u32, place as u32, text), r),
        ),
{
    let v = str_bytes(text) + r;
    let u = u32_bytes(place as u32) + v;
    let t = u32_bytes(node as u32) + u;
    assert(pin_entry_bytes(node, place, text) + r =~= array_len_bytes(3) + t);
    lemma_array_res_roundtrip(3, t);
    lemma_u32_res_roundtrip(node as u32, u);
    lemma_u32_res_roundtrip(place as u32, v);
    lemma_str_roundtrip(text, r);
}

/// An input index entry is read back as its node, its place and its input.
proof fn lemma_index_entry_roundtrip(node: u32, place: u32, x: u32, r: Seq<u8>)
    ensures
        index_entry_read(array_len_bytes(3) + u32_bytes(node) + u32_bytes(place) + u32_bytes(x) + r) == Ok::<
            ((u32, u32, u32), Seq<u8>),
            DagError,
        >(((node, place, x), r)),
{
    let v = u32_bytes(x) + r;
    let u = u32_bytes(place) + v;
    let t = u32_bytes(node) + u;
    assert(array_len_bytes(3) + u32_bytes(node) + u32_bytes(place) + u32_bytes(x) + r =~= array_len_bytes(3) + t);
    lemma_array_res_roundtrip(3, t);
    lemma_u32_res_roundtrip(node, u);
    lemma_u32_res_roundtrip(place, v);
    lemma_u32_res_roundtrip(x, r);
}

/// At most `k` of the first `k` strings are non-empty.
proof fn lemma_nonempty_count(texts: Seq<String>, k: int)
    requires
        0 <= k,
    ensures
        nonempty_count(texts, k) <= k,
    decreases k,
{
    if k > 0 {
        lemma_nonempty_count(texts, k - 1);
    }
}

/// At most `k` of the first `k` input pins feed a workflow input.
proof fn lemma_mapped_count(index: Seq<Option<u32>>, k: int)
    requires
        0 <= k,
    ensures
        mapped_count(index, k) <= k,
    decreases k,
{
    if k > 0 {
        lemma_mapped_count(index, k - 1);
    }
}

/// The first `k` node entries are read back as what the nodes hold.
#[verifier::spinoff_prover]
#[verifier::rlimit(60)]
proof fn lemma_infos_bytes(infos: Seq<NodeLayout>, k: int, r: Seq<u8>)
    requires
        0 <= k <= infos.len(),
        forall|j: int| 0 <= j < infos.len() ==> node_fits(#[trigger] infos[j]),
    ensures
        infos_read(node_infos_bytes(infos, k) + r, k as nat) == Ok::<(Seq<NodeView>, Seq<u8>), DagError>(
            (Seq::new(k as nat, |j: int| node_view(infos[j])), r),
        ),
    decreases k,
{
    if k == 0 {
        assert(node_infos_bytes(infos, k) + r =~= r);
        assert(Seq::new(0, |j: int| node_view(infos[j])) =~= Seq::<NodeView>::empty());
    } else {
        let e = node_info_bytes(infos[k - 1]);
        lemma_infos_bytes(infos, k - 1, e + r);
        assert(node_infos_bytes(infos, k) + r =~= node_infos_bytes(infos, k - 1) + (e + r));
        lemma_node_info_roundtrip(infos[k - 1], r);
        lemma_infos_snoc(
            node_infos_bytes(infos, k - 1) + (e + r),
            (k - 1) as nat,
            Seq::new((k - 1) as nat, |j: int| node_view(infos[j])),
            e + r,
            node_view(infos[k - 1]),
            r,
        );
        assert(Seq::new((k - 1) as nat, |j: int| node_view(infos[j])).push(node_view(infos[k - 1])) =~= Seq::new(
            k as nat,
            |j: int| node_view(infos[j]),
        ));
    }
}

/// The pin counts of the graph's nodes are those of `layout_nodes`.
proof fn lemma_lens(g: Graph)
    requires
        g.wf(),
        g.counts_fit(),
    ensures
        forall|i: int|
            0 <= i < g.input_seq().len() ==> pin_ok(
                input_lens(g.layout_nodes()),
                (#[trigger] g.input_seq()[i]).node.idx as u32,
                g.input_place(i) as u32,
            ),
        forall|o: int|
            0 <= o < g.output_seq().len() ==> pin_ok(
                output_lens(g.layout_nodes()),
                (#[trigger] g.output_seq()[o]).node.idx as u32,
                g.output_place(o) as u32,
            ),
{
    g.lemma_pins();
    assert forall|i: int| 0 <= i < g.input_seq().len() implies pin_ok(
        input_lens(g.layout_nodes()),
        (#[trigger] g.input_seq()[i]).node.idx as u32,
        g.input_place(i) as u32,
    ) by {
        let n = g.input_seq()[i].node.idx as int;
        assert(g.input_pins(n).len() <= u32::MAX);
    }
    assert forall|o: int| 0 <= o < g.output_seq().len() implies pin_ok(
        output_lens(g.layout_nodes()),
        (#[trigger] g.output_seq()[o]).node.idx as u32,
        g.output_place(o) as u32,
    ) by {
        let n = g.output_seq()[o].node.idx as int;
        assert(g.output_pins(n).len() <= u32::MAX);
    }
}

/// The label entries of the first `k` input pins are read back.
#[verifier::spinoff_prover]
#[verifier::rlimit(60)]
proof fn lemma_input_labels_bytes(g: Graph, labels: Seq<String>, k: int, r: Seq<u8>)
    requires
        g.wf(),
        g.counts_fit(),
        labels.len() == g.input_seq().len(),
        0 <= k <= labels.len(),
        forall|j: int| 0 <= j < labels.len() ==> text_fits((#[trigger] labels[j])@),
    ensures
        labels_read(input_labels_bytes(g, labels, k) + r, nonempty_count(labels, k), input_lens(g.layout_nodes()))
            == Ok::<(Seq<(u32, u32, Seq<char>)>, Seq<u8>), DagError>((input_label_entries(g, labels, k), r)),
    decreases k,
{
    let lens = input_lens(g.layout_nodes());
    if k == 0 {
        assert(input_labels_bytes(g, labels, k) + r =~= r);
    } else if labels[k - 1]@.len() == 0 {
        lemma_input_labels_bytes(g, labels, k - 1, r);
        assert(input_labels_bytes(g, labels, k) =~= input_labels_bytes(g, labels, k - 1));
        assert(input_label_entries(g, labels, k) =~= input_label_entries(g, labels, k - 1));
    } else {
        let node = g.input_seq()[k - 1].node.idx as int;
        let place = g.input_place(k - 1);
        let e = pin_entry_bytes(node, place, labels[k - 1]@);
        lemma_input_labels_bytes(g, labels, k - 1, e + r);
        assert(input_labels_bytes(g, labels, k) + r =~= input_labels_bytes(g, labels, k - 1) + (e + r));
        lemma_pin_entry_roundtrip(node, place, labels[k - 1]@, r);
        lemma_lens(g);
        assert(pin_ok(lens, g.input_seq()[k - 1].node.idx as u32, g.input_place(k - 1) as u32));
        lemma_labels_snoc(
            input_labels_bytes(g, labels, k - 1) + (e + r),
            nonempty_count(labels, k - 1),
            lens,
            input_label_entries(g, labels, k - 1),
            e + r,
            (node as u32, place as u32, labels[k - 1]@),
            r,
        );
        assert(input_label_entries(g, labels, k) =~= input_label_entries(g, labels, k - 1).push(
            (node as u32, place as u32, labels[k - 1]@),
        ));
    }
}

/// The label entries of the first `k` output pins are read back.
#[verifier::spinoff_prover]
#[verifier::rlimit(60)]
proof fn lemma_output_labels_bytes(g: Graph, labels: Seq<String>, k: int, r: Seq<u8>)
    requires
        g.wf(),
        g.counts_fit(),
        labels.len() == g.output_seq().len(),
        0 <= k <= labels.len(),
        forall|j: int| 0 <= j < labels.len() ==> text_fits((#[trigger] labels[j])@),
    ensures
        labels_read(output_labels_bytes(g, labels, k) + r, nonempty_count(labels, k), output_lens(g.layout_nodes()))
            == Ok::<(Seq<(u32, u32, Seq<char>)>, Seq<u8>), DagError>((output_label_entries(g, labels, k), r)),
    decreases k,
{
    let lens = output_lens(g.layout_nodes());
    if k == 0 {
        assert(output_labels_bytes(g, labels, k) + r =~= r);
    } else if labels[k - 1]@.len() == 0 {
        lemma_output_labels_bytes(g, labels, k - 1, r);
        assert(output_labels_bytes(g, labels, k) =~= output_labels_bytes(g, labels, k - 1));
        assert(output_label_entries(g, labels, k) =~= output_label_entries(g, labels, k - 1));
    } else {
        let node = g.output_seq()[k - 1].node.idx as int;
        let place = g.output_place(k - 1);
        let e = pin_entry_bytes(node, place, labels[k - 1]@);
        lemma_output_labels_bytes(g, labels, k - 1, e + r);
        assert(output_labels_bytes(g, labels, k) + r =~= output_labels_bytes(g, labels, k - 1) + (e + r));
        lemma_pin_entry_roundtrip(node, place, labels[k - 1]@, r);
        lemma_lens(g);
        assert(pin_ok(lens, g.output_seq()[k - 1].node.idx as u32, g.output_place(k - 1) as u32));
        lemma_labels_snoc(
            output_labels_bytes(g, labels, k - 1) + (e + r),
            nonempty_count(labels, k - 1),
            lens,
            output_label_entries(g, labels, k - 1),
            e + r,
            (node as u32, place as u32, labels[k - 1]@),
            r,
        );
        assert(output_label_entries(g, labels, k) =~= output_label_entries(g, labels, k - 1).push(
            (node as u32, place as u32, labels[k - 1]@),
        ));
    }
}

/// The comment entries of the first `k` nodes are read back.
proof fn lemma_comments_bytes(comments: Seq<String>, k: int, r: Seq<u8>)
    requires
        comments.len() <= u32::MAX,
        0 <= k <= comments.len(),
        forall|j: int| 0 <= j < comments.len() ==> text_fits((#[trigger] comments[j])@),
    ensures
        comments_read(comments_bytes(comments, k) + r, nonempty_count(comments, k), comments.len() as int) == Ok::<
            (Seq<(u32, Seq<char>)>, Seq<u8>),
            DagError,
        >((comment_entries(comments, k), r)),
    decreases k,
{
    if k == 0 {
        assert(comments_bytes(comments, k) + r =~= r);
    } else if comments[k - 1]@.len() == 0 {
        lemma_comments_bytes(comments, k - 1, r);
        assert(comments_bytes(comments, k) =~= comments_bytes(comments, k - 1));
        assert(comment_entries(comments, k) =~= comment_entries(comments, k - 1));
    } else {
        let text = comments[k - 1]@;
        let t1 = str_bytes(text) + r;
        let e = u32_bytes((k - 1) as u32) + str_bytes(text);
        lemma_comments_bytes(comments, k - 1, e + r);
        assert(comments_bytes(comments, k) + r =~= comments_bytes(comments, k - 1) + (e + r));
        assert(e + r =~= u32_bytes((k - 1) as u32) + t1);
        lemma_u32_res_roundtrip((k - 1) as u32, t1);
        lemma_str_roundtrip(text, r);
        lemma_comments_snoc(
            comments_bytes(comments, k - 1) + (e + r),
            nonempty_count(comments, k - 1),
            comments.len() as int,
            comment_entries(comments, k - 1),
            e + r,
            (k - 1) as u32,
            t1,
            text,
            r,
        );
        assert(comment_entries(comments, k) =~= comment_entries(comments, k - 1).push(((k - 1) as u32, text)));
    }
}

/// The first `k` strings are read back.
proof fn lemma_strings_bytes(texts: Seq<String>, k: int, r: Seq<u8>)
    requires
        0 <= k <= texts.len(),
        forall|j: int| 0 <= j < texts.len() ==> text_fits((#[trigger] texts[j])@),
    ensures
        strings_read(strings_bytes(texts, k) + r, k as nat) == Ok::<(Seq<Seq<char>>, Seq<u8>), DagError>(
            (Seq::new(k as nat, |j: int| texts[j]@), r),
        ),
    decreases k,
{
    if k == 0 {
        assert(strings_bytes(texts, k) + r =~= r);
        assert(Seq::new(0, |j: int| texts[j]@) =~= Seq::<Seq<char>>::empty());
    } else {
        let e = str_bytes(texts[k - 1]@);
        lemma_strings_bytes(texts, k - 1, e + r);
        assert(strings_bytes(texts, k) + r =~= strings_bytes(texts, k - 1) + (e + r));
        lemma_str_roundtrip(texts[k - 1]@, r);
        lemma_strings_snoc(
            strings_bytes(texts, k - 1) + (e + r),
            (k - 1) as nat,
            Seq::new((k - 1) as nat, |j: int| texts[j]@),
            e + r,
            texts[k - 1]@,
            r,
        );
        assert(Seq::new((k - 1) as nat, |j: int| texts[j]@).push(texts[k - 1]@) =~= Seq::new(
            k as nat,
            |j: int| texts[j]@,
        ));
    }
}

/// The entries of the first `k` input pins that feed a workflow input are
/// read back.
proof fn lemma_index_bytes(g: Graph, index: Seq<Option<u32>>, k: int, n_names: int, r: Seq<u8>)
    requires
        g.wf(),
        g.counts_fit(),
        index.len() == g.input_seq().len(),
        0 <= k <= index.len(),
        forall|j: int| 0 <= j < index.len() && (#[trigger] index[j]) is Some ==> index[j]->0 < n_names,
    ensures
        index_read(input_index_bytes(g, index, k) + r, mapped_count(index, k), input_lens(g.layout_nodes()), n_names)
            == Ok::<(Seq<(u32, u32, u32)>, Seq<u8>), DagError>((index_entries(g, index, k), r)),
    decreases k,
{
    let lens = input_lens(g.layout_nodes());
    if k == 0 {
        assert(input_index_bytes(g, index, k) + r =~= r);
    } else {
        match index[k - 1] {
            None => {
                lemma_index_bytes(g, index, k - 1, n_names, r);
                assert(input_index_bytes(g, index, k) =~= input_index_bytes(g, index, k - 1));
                assert(index_entries(g, index, k) =~= index_entries(g, index, k - 1));
            },
            Some(x) => {
                let node = g.input_seq()[k - 1].node.idx as u32;
                let place = g.input_place(k - 1) as u32;
                let e = array_len_bytes(3) + u32_bytes(node) + u32_bytes(place) + u32_bytes(x);
                lemma_index_bytes(g, index, k - 1, n_names, e + r);
                assert(input_index_bytes(g, index, k) + r =~= input_index_bytes(g, index, k - 1) + (e + r));
                lemma_index_entry_roundtrip(node, place, x, r);
                lemma_lens(g);
                assert(pin_ok(lens, node, place));
                lemma_index_snoc(
                    input_index_bytes(g, index, k - 1) + (e + r),
                    mapped_count(index, k - 1),
                    lens,
                    n_names,
                    index_entries(g, index, k - 1),
                    e + r,
                    (node, place, x),
                    r,
                );
                assert(index_entries(g, index, k) =~= index_entries(g, index, k - 1).push((node, place, x)));
            },
        }
    }
}

/// The first `k` workflow outputs are read back, none named twice.
#[verifier::spinoff_prover]
#[verifier::rlimit(60)]
proof fn lemma_outputs_bytes(g: Graph, outs: Seq<(OH, String)>, k: int, r: Seq<u8>)
    requires
        g.wf(),
        g.counts_fit(),
        0 <= k <= outs.len(),
        forall|j: int| 0 <= j < outs.len() ==> (#[trigger] outs[j]).0.idx < g.output_seq().len(),
        forall|j: int| 0 <= j < outs.len() ==> text_fits((#[trigger] outs[j]).1@),
        forall|a: int, b: int| 0 <= a < b < outs.len() ==> (#[trigger] outs[a]).0 != (#[trigger] outs[b]).0,
    ensures
        outputs_read(outputs_bytes(g, outs, k) + r, k as nat, output_lens(g.layout_nodes()), Seq::empty()) == Ok::<
            (Seq<(u32, u32, Seq<char>)>, Seq<u8>),
            DagError,
        >((Seq::new(k as nat, |j: int| output_entry(g, outs, j)), r)),
    decreases k,
{
    let lens = output_lens(g.layout_nodes());
    if k == 0 {
        assert(outputs_bytes(g, outs, k) + r =~= r);
        assert(Seq::new(0, |j: int| output_entry(g, outs, j)) =~= Seq::<(u32, u32, Seq<char>)>::empty());
    } else {
        let o = outs[k - 1].0.idx as int;
        let node = g.output_seq()[o].node.idx as int;
        let place = g.output_place(o);
        let e = pin_entry_bytes(node, place, outs[k - 1].1@);
        let vs = Seq::new((k - 1) as nat, |j: int| output_entry(g, outs, j));
        let v = output_entry(g, outs, k - 1);
        lemma_outputs_bytes(g, outs, k - 1, e + r);
        assert(outputs_bytes(g, outs, k) + r =~= outputs_bytes(g, outs, k - 1) + (e + r));
        lemma_pin_entry_roundtrip(node, place, outs[k - 1].1@, r);
        lemma_lens(g);
        assert(pin_ok(lens, v.0, v.1));
        g.lemma_pins();
        assert(!(Seq::<(u32, u32)>::empty() + entry_pins(vs)).contains((v.0, v.1))) by {
            assert(Seq::<(u32, u32)>::empty() + entry_pins(vs) =~= entry_pins(vs));
            if entry_pins(vs).contains((v.0, v.1)) {
                let i = choose|i: int| 0 <= i < entry_pins(vs).len() && entry_pins(vs)[i] == (v.0, v.1);
                let oi = outs[i].0.idx as int;
                let ni = g.output_seq()[oi].node.idx as int;
                assert(entry_pins(vs)[i] == (vs[i].0, vs[i].1));
                assert(g.output_pins(ni).len() <= u32::MAX);
                assert(g.output_pins(node).len() <= u32::MAX);
                assert(ni == node);
                assert(g.output_place(oi) == place);
                assert(g.output_pins(ni)[g.output_place(oi)] == oi);
                assert(oi == o);
                assert(outs[i].0 != outs[k - 1].0);
            }
        }
        lemma_outputs_snoc(outputs_bytes(g, outs, k - 1) + (e + r), (k - 1) as nat, lens, Seq::empty(), vs, e + r, v, r);
        assert(vs.push(v) =~= Seq::new(k as nat, |j: int| output_entry(g, outs, j)));
    }
}

/// The keys of the workflow file fit a string header.
proof fn lemma_keys_fit()
    ensures
        text_fits("version"@),
        text_fits("graph"@),
        text_fits("node_infos"@),
        text_fits("input_labels"@),
        text_fits("output_labels"@),
        text_fits("node_comments"@),
        text_fits("workflow_outputs"@),
        text_fits("workflow_input_names"@),
        text_fits("workflow_input_index"@),
        text_fits("nested_workflows"@),
{
    reveal_strlit("version");
    reveal_strlit("graph");
    reveal_strlit("node_infos");
    reveal_strlit("input_labels");
    reveal_strlit("output_labels");
    reveal_strlit("node_comments");
    reveal_strlit("workflow_outputs");
    reveal_strlit("workflow_input_names");
    reveal_strlit("workflow_input_index");
    reveal_strlit("nested_workflows");
    lemma_utf8_len("version"@);
    lemma_utf8_len("graph"@);
    lemma_utf8_len("node_infos"@);
    lemma_utf8_len("input_labels"@);
    lemma_utf8_len("output_labels"@);
    lemma_utf8_len("node_comments"@);
    lemma_utf8_len("workflow_outputs"@);
    lemma_utf8_len("workflow_input_names"@);
    lemma_utf8_len("workflow_input_index"@);
    lemma_utf8_len("nested_workflows"@);
}

/// The key of a section is read back, leaving its header and entries.
proof fn lemma_section_key(key: &str, header: Seq<u8>, body: Seq<u8>, r: Seq<u8>)
    requires
        text_fits(key@),
    ensures
        key_res(section(key, header, body) + r, key@) == Ok::<Seq<u8>, DagError>(header + (body + r)),
{
    assert(section(key, header, body) + r =~= str_bytes(key@) + (header + (body + r)));
    lemma_key_roundtrip(key@, header + (body + r));
}

/// What reading a workflow back needs of it, at its own level.
proof fn lemma_readable(w: WorkflowLayout)
    requires
        layout_readable(w),
    ensures
        w.graph.counts_fit(),
        w.graph.input_seq().len() <= u32::MAX,
        w.graph.output_seq().len() <= u32::MAX,
        w.workflow_outputs@.len() <= u32::MAX,
        w.workflow_input_names@.len() <= u32::MAX,
        w.nested_workflows@.len() <= u32::MAX,
        forall|k: int| 0 <= k < w.node_infos@.len() ==> node_fits(#[trigger] w.node_infos@[k]),
        forall|k: int| 0 <= k < w.input_labels@.len() ==> text_fits((#[trigger] w.input_labels@[k])@),
        forall|k: int| 0 <= k < w.output_labels@.len() ==> text_fits((#[trigger] w.output_labels@[k])@),
        forall|k: int| 0 <= k < w.node_comments@.len() ==> text_fits((#[trigger] w.node_comments@[k])@),
        forall|k: int| 0 <= k < w.workflow_input_names@.len() ==> text_fits((#[trigger] w.workflow_input_names@[k])@),
        forall|k: int| 0 <= k < w.workflow_outputs@.len() ==> text_fits((#[trigger] w.workflow_outputs@[k]).1@),
        forall|a: int, b: int|
            0 <= a < b < w.workflow_outputs@.len() ==> (#[trigger] w.workflow_outputs@[a]).0 != (
            #[trigger] w.workflow_outputs@[b]).0,
        forall|k: int|
            0 <= k < w.workflow_input_index@.len() && (#[trigger] w.workflow_input_index@[k]) is Some
                ==> w.workflow_input_index@[k]->0 < w.workflow_input_names@.len(),
        forall|k: int|
            0 <= k < w.nested_workflows@.len() ==> text_fits((#[trigger] w.nested_workflows@[k]).0@)
                && layout_readable(w.nested_workflows@[k].1),
{
    reveal(layout_readable);
}

/// The `node_infos` key at the front of `s`, then an array header for as
/// many entries as `nodes`, then the entries `infos`, then `t`.
#[verifier::opaque]
pub open spec fn infos_step(s: Seq<u8>, a: Seq<u8>, b: Seq<u8>, n: u32, nodes: Seq<(u32, u32)>, infos: Seq<NodeView>, t: Seq<u8>) -> bool {
    &&& key_res(s, "node_infos"@) == Ok::<Seq<u8>, DagError>(a)
    &&& array_res(a) == Ok::<(u32, Seq<u8>), DagError>((n, b))
    &&& n == nodes.len()
    &&& infos_read(b, n as nat) == Ok::<(Seq<NodeView>, Seq<u8>), DagError>((infos, t))
}

/// The key `key` at the front of `s`, then an array header for `n`
/// entries, then the label entries `ls` naming pins within `lens`, then `t`.
#[verifier::opaque]
pub open spec fn labels_step(s: Seq<u8>, key: Seq<char>, a: Seq<u8>, b: Seq<u8>, n: u32, lens: Seq<int>, ls: Seq<(u32, u32, Seq<char>)>, t: Seq<u8>) -> bool {
    &&& key_res(s, key) == Ok::<Seq<u8>, DagError>(a)
    &&& array_res(a) == Ok::<(u32, Seq<u8>), DagError>((n, b))
    &&& labels_read(b, n as nat, lens) == Ok::<(Seq<(u32, u32, Seq<char>)>, Seq<u8>), DagError>((ls, t))
}

/// The `node_comments` key at the front of `s`, then a map header for `n`
/// entries, then the comment entries `cs` naming nodes of `nodes`, then `t`.
#[verifier::opaque]
pub open spec fn comments_step(s: Seq<u8>, a: Seq<u8>, b: Seq<u8>, n: u32, nodes: Seq<(u32, u32)>, cs: Seq<(u32, Seq<char>)>, t: Seq<u8>) -> bool {
    &&& key_res(s, "node_comments"@) == Ok::<Seq<u8>, DagError>(a)
    &&& map_res(a) == Ok::<(u32, Seq<u8>), DagError>((n, b))
    &&& comments_read(b, n as nat, nodes.len() as int) == Ok::<(Seq<(u32, Seq<char>)>, Seq<u8>), DagError>((cs, t))
}

/// The `node_infos` entry is read back.
proof fn lemma_infos_section(w: WorkflowLayout, r: Seq<u8>)
    requires
        layout_fits(w),
        layout_readable(w),
    ensures
        infos_step(
            infos_section(w) + r,
            array_len_bytes(w.node_infos@.len() as u32) + (node_infos_bytes(w.node_infos@, w.node_infos@.len() as int) + r),
            node_infos_bytes(w.node_infos@, w.node_infos@.len() as int) + r,
            w.node_infos@.len() as u32,
            w.graph.layout_nodes(),
            entries_of(w).infos,
            r,
        ),
{
    reveal(infos_step);
    lemma_fits(w);
    lemma_readable(w);
    lemma_keys_fit();
    let infos = w.node_infos@;
    let bi = node_infos_bytes(infos, infos.len() as int);
    lemma_section_key("node_infos", array_len_bytes(infos.len() as u32), bi, r);
    lemma_array_res_roundtrip(infos.len() as u32, bi + r);
    lemma_infos_bytes(infos, infos.len() as int, r);
    assert(entries_of(w).infos == Seq::new(infos.len() as nat, |j: int| node_view(infos[j])));
}

/// The `input_labels` entry is read back.
proof fn lemma_input_labels_section(w: WorkflowLayout, r: Seq<u8>)
    requires
        layout_fits(w),
        layout_readable(w),
    ensures
        labels_step(
            input_labels_section(w) + r,
            "input_labels"@,
            array_len_bytes(nonempty_count(w.input_labels@, w.input_labels@.len() as int) as u32) + (input_labels_bytes(
                w.graph,
                w.input_labels@,
                w.input_labels@.len() as int,
            ) + r),
            input_labels_bytes(w.graph, w.input_labels@, w.input_labels@.len() as int) + r,
            nonempty_count(w.input_labels@, w.input_labels@.len() as int) as u32,
            input_lens(w.graph.layout_nodes()),
            entries_of(w).input_labels,
            r,
        ),
{
    reveal(labels_step);
    lemma_fits(w);
    lemma_readable(w);
    lemma_keys_fit();
    let g = w.graph;
    let ils = w.input_labels@;
    let ni = nonempty_count(ils, ils.len() as int);
    let bil = input_labels_bytes(g, ils, ils.len() as int);
    lemma_nonempty_count(ils, ils.len() as int);
    lemma_section_key("input_labels", array_len_bytes(ni as u32), bil, r);
    lemma_array_res_roundtrip(ni as u32, bil + r);
    lemma_input_labels_bytes(g, ils, ils.len() as int, r);
}

/// The `output_labels` entry is read back.
proof fn lemma_output_labels_section(w: WorkflowLayout, r: Seq<u8>)
    requires
        layout_fits(w),
        layout_readable(w),
    ensures
        labels_step(
            output_labels_section(w) + r,
            "output_labels"@,
            array_len_bytes(nonempty_count(w.output_labels@, w.output_labels@.len() as int) as u32) + (output_labels_bytes(
                w.graph,
                w.output_labels@,
                w.output_labels@.len() as int,
            ) + r),
            output_labels_bytes(w.graph, w.output_labels@, w.output_labels@.len() as int) + r,
            nonempty_count(w.output_labels@, w.output_labels@.len() as int) as u32,
            output_lens(w.graph.layout_nodes()),
            entries_of(w).output_labels,
            r,
        ),
{
    reveal(labels_step);
    lemma_fits(w);
    lemma_readable(w);
    lemma_keys_fit();
    let g = w.graph;
    let ols = w.output_labels@;
    let no = nonempty_count(ols, ols.len() as int);
    let bol = output_labels_bytes(g, ols, ols.len() as int);
    lemma_nonempty_count(ols, ols.len() as int);
    lemma_section_key("output_labels", array_len_bytes(no as u32), bol, r);
    lemma_array_res_roundtrip(no as u32, bol + r);
    lemma_output_labels_bytes(g, ols, ols.len() as int, r);
}

/// The `node_comments` entry is read back.
proof fn lemma_comments_section(w: WorkflowLayout, r: Seq<u8>)
    requires
        layout_fits(w),
        layout_readable(w),
    ensures
        comments_step(
            comments_section(w) + r,
            map_len_bytes(nonempty_count(w.node_comments@, w.node_comments@.len() as int) as u32) + (comments_bytes(
                w.node_comments@,
                w.node_comments@.len() as int,
            ) + r),
            comments_bytes(w.node_comments@, w.node_comments@.len() as int) + r,
            nonempty_count(w.node_comments@, w.node_comments@.len() as int) as u32,
            w.graph.layout_nodes(),
            entries_of(w).comments,
            r,
        ),
{
    reveal(comments_step);
    lemma_fits(w);
    lemma_readable(w);
    lemma_keys_fit();
    let cs = w.node_comments@;
    let nc = nonempty_count(cs, cs.len() as int);
    let bc = comments_bytes(cs, cs.len() as int);
    lemma_nonempty_count(cs, cs.len() as int);
    lemma_section_key("node_comments", map_len_bytes(nc as u32), bc, r);
    lemma_map_len_roundtrip(nc as u32, bc + r);
    lemma_comments_bytes(cs, cs.len() as int, r);
}

/// The four steps of reading the first entries give them all.
#[verifier::spinoff_prover]
#[verifier::rlimit(100)]
proof fn lemma_first_steps(
    s: Seq<u8>,
    nodes: Seq<(u32, u32)>,
    a0: Seq<u8>, b0: Seq<u8>, n0: u32, infos: Seq<NodeView>, c0: Seq<u8>,
    a1: Seq<u8>, b1: Seq<u8>, n1: u32, ils: Seq<(u32, u32, Seq<char>)>, c1: Seq<u8>,
    a2: Seq<u8>, b2: Seq<u8>, n2: u32, ols: Seq<(u32, u32, Seq<char>)>, c2: Seq<u8>,
    a3: Seq<u8>, b3: Seq<u8>, n3: u32, cs: Seq<(u32, Seq<char>)>, c3: Seq<u8>,
)
    requires
        infos_step(s, a0, b0, n0, nodes, infos, c0),
        labels_step(c0, "input_labels"@, a1, b1, n1, input_lens(nodes), ils, c1),
        labels_step(c1, "output_labels"@, a2, b2, n2, output_lens(nodes), ols, c2),
        comments_step(c2, a3, b3, n3, nodes, cs, c3),
    ensures
        first_read(s, nodes) == Ok::<
            (Seq<NodeView>, Seq<(u32, u32, Seq<char>)>, Seq<(u32, u32, Seq<char>)>, Seq<(u32, Seq<char>)>, Seq<u8>),
            DagError,
        >((infos, ils, ols, cs, c3)),
{
    reveal(first_read);
    reveal(infos_step);
    reveal(labels_step);
    reveal(comments_step);
}

/// The node infos, the labels and the comments are read back.
proof fn lemma_first_read(w: WorkflowLayout, r: Seq<u8>)
    requires
        layout_fits(w),
        layout_readable(w),
    ensures
        first_read(
            infos_section(w) + (input_labels_section(w) + (output_labels_section(w) + (comments_section(w) + r))),
            w.graph.layout_nodes(),
        ) == Ok::<
            (Seq<NodeView>, Seq<(u32, u32, Seq<char>)>, Seq<(u32, u32, Seq<char>)>, Seq<(u32, Seq<char>)>, Seq<u8>),
            DagError,
        >((entries_of(w).infos, entries_of(w).input_labels, entries_of(w).output_labels, entries_of(w).comments, r)),
{
    let g = w.graph;
    let nodes = g.layout_nodes();
    let r3 = comments_section(w) + r;
    let r2 = output_labels_section(w) + r3;
    let r1 = input_labels_section(w) + r2;
    lemma_infos_section(w, r1);
    lemma_input_labels_section(w, r2);
    lemma_output_labels_section(w, r3);
    lemma_comments_section(w, r);
    let n0 = w.node_infos@.len() as u32;
    let n1 = nonempty_count(w.input_labels@, w.input_labels@.len() as int) as u32;
    let n2 = nonempty_count(w.output_labels@, w.output_labels@.len() as int) as u32;
    let n3 = nonempty_count(w.node_comments@, w.node_comments@.len() as int) as u32;
    let b0 = node_infos_bytes(w.node_infos@, w.node_infos@.len() as int) + r1;
    let b1 = input_labels_bytes(g, w.input_labels@, w.input_labels@.len() as int) + r2;
    let b2 = output_labels_bytes(g, w.output_labels@, w.output_labels@.len() as int) + r3;
    let b3 = comments_bytes(w.node_comments@, w.node_comments@.len() as int) + r;
    lemma_first_steps(
        infos_section(w) + r1,
        nodes,
        array_len_bytes(n0) + b0, b0, n0, entries_of(w).infos, r1,
        array_len_bytes(n1) + b1, b1, n1, entries_of(w).input_labels, r2,
        array_len_bytes(n2) + b2, b2, n2, entries_of(w).output_labels, r3,
        map_len_bytes(n3) + b3, b3, n3, entries_of(w).comments, r,
    );
}

/// The workflow outputs, the input names and the input index are read back.
#[verifier::spinoff_prover]
#[verifier::rlimit(60)]
proof fn lemma_second_read(w: WorkflowLayout, r: Seq<u8>)
    requires
        layout_fits(w),
        layout_readable(w),
    ensures
        second_read(outputs_section(w) + (names_section(w) + (index_section(w) + r)), w.graph.layout_nodes()) == Ok::<
            (Seq<(u32, u32, Seq<char>)>, Seq<Seq<char>>, Seq<(u32, u32, u32)>, Seq<u8>),
            DagError,
        >((entries_of(w).outputs, entries_of(w).names, entries_of(w).index, r)),
{
    lemma_fits(w);
    lemma_readable(w);
    lemma_keys_fit();
    reveal(second_read);
    let g = w.graph;
    let e = entries_of(w);
    let outs = w.workflow_outputs@;
    let names = w.workflow_input_names@;
    let idx = w.workflow_input_index@;
    let r2 = index_section(w) + r;
    let r1 = names_section(w) + r2;
    // workflow_outputs
    let bo = outputs_bytes(g, outs, outs.len() as int);
    lemma_section_key("workflow_outputs", array_len_bytes(outs.len() as u32), bo, r1);
    lemma_array_res_roundtrip(outs.len() as u32, bo + r1);
    lemma_outputs_bytes(g, outs, outs.len() as int, r1);
    // workflow_input_names
    let bn = strings_bytes(names, names.len() as int);
    lemma_section_key("workflow_input_names", array_len_bytes(names.len() as u32), bn, r2);
    lemma_array_res_roundtrip(names.len() as u32, bn + r2);
    lemma_strings_bytes(names, names.len() as int, r2);
    assert(e.names == Seq::new(names.len() as nat, |j: int| names[j]@));
    // workflow_input_index
    let m = mapped_count(idx, idx.len() as int);
    let bx = input_index_bytes(g, idx, idx.len() as int);
    lemma_mapped_count(idx, idx.len() as int);
    lemma_section_key("workflow_input_index", array_len_bytes(m as u32), bx, r);
    lemma_array_res_roundtrip(m as u32, bx + r);
    lemma_index_bytes(g, idx, idx.len() as int, names.len() as int, r);
}

/// The start of the file is read back as the graph's nodes and links.
#[verifier::spinoff_prover]
#[verifier::rlimit(60)]
proof fn lemma_head_read(g: Graph, r: Seq<u8>)
    requires
        g.wf(),
        !g.has_deleted(),
        g.counts_fit(),
    ensures
        head_read(head_bytes(g) + r) == Ok::<(Seq<(u32, u32)>, Seq<(u32, u32, u32, u32)>, Seq<u8>), DagError>(
            (g.layout_nodes(), g.layout_links(), r),
        ),
{
    reveal(head_read);
    reveal(head_bytes);
    lemma_keys_fit();
    let lb = layout_bytes(g.layout_nodes(), g.layout_links());
    let t3 = lb + r;
    let t2 = key_bytes("graph") + t3;
    let t1 = u64_bytes(WORKFLOW_MSGPACK_VERSION_CURRENT) + t2;
    let t0 = key_bytes("version") + t1;
    assert(head_bytes(g) + r =~= map_len_bytes(10) + t0);
    lemma_map_len_roundtrip(10, t0);
    lemma_key_roundtrip("version"@, t1);
    lemma_u64_roundtrip(WORKFLOW_MSGPACK_VERSION_CURRENT, t2);
    lemma_key_roundtrip("graph"@, t3);
    law_graph_bytes_read_back(g, r);
    assert(map_res(head_bytes(g) + r) == Ok::<(u32, Seq<u8>), DagError>((10u32, t0)));
    assert(key_res(t0, "version"@) == Ok::<Seq<u8>, DagError>(t1));
    assert(u64_read(t1) == Some((WORKFLOW_MSGPACK_VERSION_CURRENT, 9nat)));
    assert(t1.skip(9) == t2);
    assert(key_res(t2, "graph"@) == Ok::<Seq<u8>, DagError>(t3));
}

/// Reading one more nested workflow entry after `n` of them.
proof fn lemma_nested_snoc(
    s: Seq<u8>,
    n: nat,
    vs: Seq<(Seq<char>, WorkflowEntries)>,
    t: Seq<u8>,
    t1: Seq<u8>,
    name: Seq<char>,
    u: Seq<u8>,
    e: WorkflowEntries,
    r: Seq<u8>,
)
    requires
        nested_read(s, n) == Ok::<(Seq<(Seq<char>, WorkflowEntries)>, Seq<u8>), DagError>((vs, t)),
        header_res(t, 2) == Ok::<Seq<u8>, DagError>(t1),
        str_res(t1) == Ok::<(Seq<char>, Seq<u8>), DagError>((name, u)),
        u.len() < t.len(),
        workflow_read(u) == Ok::<(WorkflowEntries, Seq<u8>), DagError>((e, r)),
        r.len() < t.len(),
    ensures
        nested_read(s, n + 1) == Ok::<(Seq<(Seq<char>, WorkflowEntries)>, Seq<u8>), DagError>((vs.push((name, e)), r)),
    decreases n,
{
    if n == 0 {
        assert(vs == Seq::<(Seq<char>, WorkflowEntries)>::empty() && t == s);
        assert(nested_read(r, 0) == Ok::<(Seq<(Seq<char>, WorkflowEntries)>, Seq<u8>), DagError>((Seq::empty(), r)));
        assert(seq![(name, e)] + Seq::<(Seq<char>, WorkflowEntries)>::empty() =~= vs.push((name, e)));
    } else {
        let t0 = header_res(s, 2)->Ok_0;
        let (name0, u0) = str_res(t0)->Ok_0;
        let (e0, v0) = workflow_read(u0)->Ok_0;
        let (vs1, tt) = nested_read(v0, (n - 1) as nat)->Ok_0;
        lemma_nested_snoc(v0, (n - 1) as nat, vs1, tt, t1, name, u, e, r);
        assert(nested_read(v0, n) == Ok::<(Seq<(Seq<char>, WorkflowEntries)>, Seq<u8>), DagError>(
            (vs1.push((name, e)), r),
        ));
        assert(((n + 1) as nat - 1) as nat == n);
        assert(seq![(name0, e0)] + vs1.push((name, e)) =~= vs.push((name, e)));
    }
}

/// Each step of reading a workflow, taken alone, gives the whole.
#[verifier::spinoff_prover]
#[verifier::rlimit(100)]
proof fn lemma_workflow_steps(
    s: Seq<u8>,
    nodes: Seq<(u32, u32)>,
    links: Seq<(u32, u32, u32, u32)>,
    u: Seq<u8>,
    e: WorkflowEntries,
    m: Seq<u8>,
    tk: Seq<u8>,
    ta: Seq<u8>,
    nn: u32,
    tn: Seq<u8>,
    rest: Seq<u8>,
)
    requires
        head_read(s) == Ok::<(Seq<(u32, u32)>, Seq<(u32, u32, u32, u32)>, Seq<u8>), DagError>((nodes, links, u)),
        e.nodes == nodes,
        e.links == links,
        first_read(u, nodes) == Ok::<
            (Seq<NodeView>, Seq<(u32, u32, Seq<char>)>, Seq<(u32, u32, Seq<char>)>, Seq<(u32, Seq<char>)>, Seq<u8>),
            DagError,
        >((e.infos, e.input_labels, e.output_labels, e.comments, m)),
        second_read(m, nodes) == Ok::<
            (Seq<(u32, u32, Seq<char>)>, Seq<Seq<char>>, Seq<(u32, u32, u32)>, Seq<u8>),
            DagError,
        >((e.outputs, e.names, e.index, tk)),
        key_res(tk, "nested_workflows"@) == Ok::<Seq<u8>, DagError>(ta),
        array_res(ta) == Ok::<(u32, Seq<u8>), DagError>((nn, tn)),
        tn.len() < s.len(),
        nested_read(tn, nn as nat) == Ok::<(Seq<(Seq<char>, WorkflowEntries)>, Seq<u8>), DagError>((e.nested, rest)),
    ensures
        workflow_read(s) == Ok::<(WorkflowEntries, Seq<u8>), DagError>((e, rest)),
{
}

/// What the reading of a whole workflow needs of it and of its nested
/// workflows.
proof fn lemma_law_needs(w: WorkflowLayout)
    requires
        layout_fits(w),
        layout_collected(w),
        layout_readable(w),
    ensures
        w.graph.wf(),
        !w.graph.has_deleted(),
        w.graph.counts_fit(),
        w.nested_workflows@.len() <= u32::MAX,
        forall|k: int|
            0 <= k < w.nested_workflows@.len() ==> layout_fits((#[trigger] w.nested_workflows@[k]).1)
                && layout_collected(w.nested_workflows@[k].1) && layout_readable(w.nested_workflows@[k].1)
                && text_fits(w.nested_workflows@[k].0@),
{
    lemma_fits(w);
    lemma_collected(w);
    lemma_readable(w);
}

/// Writing a workflow with `write_to_msgpack` and reading the bytes with
/// `read_from_msgpack` gives back every entry of the workflow: the nodes
/// and links of its graph, the node infos, the non-empty labels and
/// comments, the workflow outputs, the input names, the input pins that
/// feed a workflow input, and the nested workflows by name, each read back
/// the same way; the bytes after the file are left unread.
#[verifier::spinoff_prover]
#[verifier::rlimit(100)]
pub proof fn law_workflow_bytes_read_back(w: WorkflowLayout, rest: Seq<u8>)
    requires
        layout_fits(w),
        layout_collected(w),
        layout_readable(w),
    ensures
        workflow_read(workflow_bytes(w) + rest) == Ok::<(WorkflowEntries, Seq<u8>), DagError>((entries_of(w), rest)),
    decreases w,
{
    lemma_law_needs(w);
    lemma_keys_fit();
    let g = w.graph;
    let ns = w.nested_workflows@;
    let nn = ns.len() as u32;
    let tn = nested_bytes(ns) + rest;
    let ta = array_len_bytes(nn) + tn;
    let tk = key_bytes("nested_workflows") + ta;
    let r6 = index_section(w) + tk;
    let r5 = names_section(w) + r6;
    let m = outputs_section(w) + r5;
    let r3 = comments_section(w) + m;
    let r2 = output_labels_section(w) + r3;
    let r1 = input_labels_section(w) + r2;
    let u = infos_section(w) + r1;
    let s = workflow_bytes(w) + rest;
    lemma_workflow_bytes_split(w, rest);
    lemma_head_read(g, u);
    lemma_first_read(w, m);
    lemma_second_read(w, tk);
    lemma_key_roundtrip("nested_workflows"@, ta);
    lemma_array_res_roundtrip(nn, tn);
    lemma_nested_bytes(ns, rest);
    lemma_workflow_steps(s, g.layout_nodes(), g.layout_links(), u, entries_of(w), m, tk, ta, nn, tn, rest);
}

/// The first four entries after the graph, then `t`.
spec fn first_part(w: WorkflowLayout, t: Seq<u8>) -> Seq<u8> {
    infos_section(w) + (input_labels_section(w) + (output_labels_section(w) + (comments_section(w) + t)))
}

/// The next three entries, then `t`.
spec fn second_part(w: WorkflowLayout, t: Seq<u8>) -> Seq<u8> {
    outputs_section(w) + (names_section(w) + (index_section(w) + t))
}

/// The nested workflows entry, then `rest`.
spec fn nested_part(w: WorkflowLayout, rest: Seq<u8>) -> Seq<u8> {
    key_bytes("nested_workflows") + (array_len_bytes(w.nested_workflows@.len() as u32) + (nested_bytes(
        w.nested_workflows@,
    ) + rest))
}

/// The file of `w`, followed by `rest`, entry by entry.
proof fn lemma_workflow_bytes_split(w: WorkflowLayout, rest: Seq<u8>)
    ensures
        workflow_bytes(w) + rest == head_bytes(w.graph) + first_part(w, second_part(w, nested_part(w, rest))),
        (nested_bytes(w.nested_workflows@) + rest).len() < (workflow_bytes(w) + rest).len(),
{
    reveal(sections_bytes);
    assert(head_bytes(w.graph).len() > 0) by {
        reveal(head_bytes);
    }
    let h = head_bytes(w.graph);
    let a1 = infos_section(w);
    let a2 = input_labels_section(w);
    let a3 = output_labels_section(w);
    let a4 = comments_section(w);
    let a5 = outputs_section(w);
    let a6 = names_section(w);
    let a7 = index_section(w);
    let k = key_bytes("nested_workflows");
    let ar = array_len_bytes(w.nested_workflows@.len() as u32);
    let nb = nested_bytes(w.nested_workflows@);
    let s2 = a1 + a2;
    let s3 = s2 + a3;
    let s4 = s3 + a4;
    let s5 = s4 + a5;
    let s6 = s5 + a6;
    let s7 = s6 + a7;
    assert(sections_bytes(w) == s7);
    let t3 = nb + rest;
    let t2 = ar + t3;
    let t1 = k + t2;
    assert(t1 == nested_part(w, rest));
    let x7 = a7 + t1;
    let x6 = a6 + x7;
    let x5 = a5 + x6;
    assert(x5 == second_part(w, t1));
    let y4 = a4 + x5;
    let y3 = a3 + y4;
    let y2 = a2 + y3;
    let y1 = a1 + y2;
    assert(y1 == first_part(w, x5));
    lemma_concat_associative(h + s7 + k + ar, nb, rest);
    lemma_concat_associative(h + s7 + k, ar, t3);
    lemma_concat_associative(h + s7, k, t2);
    lemma_concat_associative(h, s7, t1);
    lemma_concat_associative(s6, a7, t1);
    lemma_concat_associative(s5, a6, x7);
    lemma_concat_associative(s4, a5, x6);
    lemma_concat_associative(s3, a4, x5);
    lemma_concat_associative(s2, a3, y4);
    lemma_concat_associative(a1, a2, y3);
    assert(workflow_bytes(w) == h + s7 + k + ar + nb);
}

/// The nested workflows, each of which reads back as written, are read back.
#[verifier::spinoff_prover]
proof fn lemma_nested_bytes(ns: Seq<(String, WorkflowLayout)>, rest: Seq<u8>)
    requires
        forall|k: int|
            0 <= k < ns.len() ==> layout_fits((#[trigger] ns[k]).1) && layout_collected(ns[k].1) && layout_readable(
                ns[k].1,
            ) && text_fits(ns[k].0@),
    ensures
        nested_read(nested_bytes(ns) + rest, ns.len()) == Ok::<(Seq<(Seq<char>, WorkflowEntries)>, Seq<u8>), DagError>(
            (nested_entries(ns), rest),
        ),
    decreases ns,
{
    if ns.len() == 0 {
        assert(nested_bytes(ns) + rest =~= rest);
    } else {
        let dl = ns.drop_last();
        let last = ns[ns.len() - 1];
        let wb = workflow_bytes(last.1);
        let e = array_len_bytes(2) + str_bytes(last.0@) + wb;
        assert forall|k: int| 0 <= k < dl.len() implies layout_fits((#[trigger] dl[k]).1) && layout_collected(dl[k].1)
            && layout_readable(dl[k].1) && text_fits(dl[k].0@) by {
            assert(dl[k] == ns[k]);
        }
        lemma_nested_bytes(dl, e + rest);
        let nd = nested_bytes(dl);
        let a = array_len_bytes(2);
        let sb = str_bytes(last.0@);
        assert(nested_bytes(ns) == nd + a + sb + wb);
        lemma_concat_associative(nd, a, sb);
        lemma_concat_associative(nd, a + sb, wb);
        lemma_concat_associative(nd, e, rest);
        law_workflow_bytes_read_back(last.1, rest);
        let t1 = sb + (wb + rest);
        lemma_concat_associative(a + sb, wb, rest);
        lemma_concat_associative(a, sb, wb + rest);
        lemma_array_res_roundtrip(2, t1);
        lemma_str_roundtrip(last.0@, wb + rest);
        lemma_nested_snoc(
            nested_bytes(dl) + (e + rest),
            dl.len(),
            nested_entries(dl),
            e + rest,
            t1,
            last.0@,
            wb + rest,
            entries_of(last.1),
            rest,
        );
        assert(nested_entries(ns) == nested_entries(dl).push((last.0@, entries_of(last.1))));
    }
}

/// Every entry of `e` names what is there: each link joins existing pins of
/// existing nodes, there is one node info per node, each label and each
/// input index entry names an existing pin, each comment an existing node,
/// each workflow output an existing output pin and no pin twice, each input
/// index entry an existing workflow input, and the nested workflows are so
/// too.
pub open spec fn entries_valid(e: WorkflowEntries) -> bool
    decreases e,
{
    let nodes = e.nodes;
    &&& forall|k: int|
        0 <= k < e.links.len() ==> {
            let f = #[trigger] e.links[k];
            &&& f.0 < nodes.len() && f.1 < nodes[f.0 as int].1
            &&& f.2 < nodes.len() && f.3 < nodes[f.2 as int].0
        }
    &&& e.infos.len() == nodes.len()
    &&& forall|k: int|
        0 <= k < e.input_labels.len() ==> (#[trigger] e.input_labels[k]).0 < nodes.len() && e.input_labels[k].1
            < nodes[e.input_labels[k].0 as int].0
    &&& forall|k: int|
        0 <= k < e.output_labels.len() ==> (#[trigger] e.output_labels[k]).0 < nodes.len() && e.output_labels[k].1
            < nodes[e.output_labels[k].0 as int].1
    &&& forall|k: int| 0 <= k < e.comments.len() ==> (#[trigger] e.comments[k]).0 < nodes.len()
    &&& forall|k: int|
        0 <= k < e.outputs.len() ==> (#[trigger] e.outputs[k]).0 < nodes.len() && e.outputs[k].1 < nodes[e.outputs[k].0 as int].1
    &&& forall|a: int, b: int|
        0 <= a < b < e.outputs.len() ==> !((#[trigger] e.outputs[a]).0 == (#[trigger] e.outputs[b]).0
            && e.outputs[a].1 == e.outputs[b].1)
    &&& forall|k: int|
        0 <= k < e.index.len() ==> (#[trigger] e.index[k]).0 < nodes.len() && e.index[k].1 < nodes[e.index[k].0 as int].0 && e.index[k].2 < e.names.len()
    &&& forall|k: int| 0 <= k < e.nested.len() ==> entries_valid((#[trigger] e.nested[k]).1)
}

/// `n` node entries read are `n` entries.
proof fn lemma_infos_count(s: Seq<u8>, n: nat)
    ensures
        infos_read(s, n) is Ok ==> infos_read(s, n)->Ok_0.0.len() == n,
    decreases n,
{
    if n > 0 {
        match node_info_read(s) {
            Ok((v, t)) => lemma_infos_count(t, (n - 1) as nat),
            Err(_) => {},
        }
    }
}

/// Label entries read name pins within `lens`.
proof fn lemma_labels_name_pins(s: Seq<u8>, n: nat, lens: Seq<int>)
    ensures
        labels_read(s, n, lens) is Ok ==> forall|k: int|
            0 <= k < labels_read(s, n, lens)->Ok_0.0.len() ==> {
                let v = #[trigger] labels_read(s, n, lens)->Ok_0.0[k];
                v.0 < lens.len() && v.1 < lens[v.0 as int]
            },
    decreases n,
{
    if n > 0 {
        match pin_entry_read(s) {
            Ok((v, t)) => {
                lemma_labels_name_pins(t, (n - 1) as nat, lens);
                if labels_read(s, n, lens) is Ok {
                    let vs = labels_read(s, n, lens)->Ok_0.0;
                    let ws = labels_read(t, (n - 1) as nat, lens)->Ok_0.0;
                    assert(vs == seq![v] + ws);
                    assert forall|k: int| 0 <= k < vs.len() implies {
                        let x = #[trigger] vs[k];
                        x.0 < lens.len() && x.1 < lens[x.0 as int]
                    } by {
                        if k > 0 {
                            assert(vs[k] == ws[k - 1]);
                        }
                    }
                }
            },
            Err(_) => {},
        }
    }
}

/// Comment entries read name nodes below `n_nodes`.
proof fn lemma_comments_name_nodes(s: Seq<u8>, n: nat, n_nodes: int)
    ensures
        comments_read(s, n, n_nodes) is Ok ==> forall|k: int|
            0 <= k < comments_read(s, n, n_nodes)->Ok_0.0.len() ==> (#[trigger] comments_read(s, n, n_nodes)->Ok_0.0[k]).0
                < n_nodes,
    decreases n,
{
    if n > 0 {
        match u32_res(s) {
            Ok((node, t)) => match str_res(t) {
                Ok((text, u)) => {
                    lemma_comments_name_nodes(u, (n - 1) as nat, n_nodes);
                    if comments_read(s, n, n_nodes) is Ok {
                        let vs = comments_read(s, n, n_nodes)->Ok_0.0;
                        let ws = comments_read(u, (n - 1) as nat, n_nodes)->Ok_0.0;
                        assert(vs == seq![(node, text)] + ws);
                        assert forall|k: int| 0 <= k < vs.len() implies (#[trigger] vs[k]).0 < n_nodes by {
                            if k > 0 {
                                assert(vs[k] == ws[k - 1]);
                            }
                        }
                    }
                },
                Err(_) => {},
            },
            Err(_) => {},
        }
    }
}

/// Workflow output entries read name pins within `lens`, none of them in
/// `seen` and no two the same.
proof fn lemma_outputs_name_pins(s: Seq<u8>, n: nat, lens: Seq<int>, seen: Seq<(u32, u32)>)
    ensures
        outputs_read(s, n, lens, seen) is Ok ==> {
            let vs = outputs_read(s, n, lens, seen)->Ok_0.0;
            &&& forall|k: int|
                0 <= k < vs.len() ==> (#[trigger] vs[k]).0 < lens.len() && vs[k].1 < lens[vs[k].0 as int] && !seen.contains(
                    (vs[k].0, vs[k].1),
                )
            &&& forall|a: int, b: int|
                0 <= a < b < vs.len() ==> !((#[trigger] vs[a]).0 == (#[trigger] vs[b]).0 && vs[a].1 == vs[b].1)
        },
    decreases n,
{
    if n > 0 {
        match pin_entry_read(s) {
            Ok((v, t)) => {
                let seen1 = seen.push((v.0, v.1));
                lemma_outputs_name_pins(t, (n - 1) as nat, lens, seen1);
                if outputs_read(s, n, lens, seen) is Ok {
                    let vs = outputs_read(s, n, lens, seen)->Ok_0.0;
                    let ws = outputs_read(t, (n - 1) as nat, lens, seen1)->Ok_0.0;
                    assert(vs == seq![v] + ws);
                    assert forall|k: int| 0 <= k < vs.len() implies (#[trigger] vs[k]).0 < lens.len() && vs[k].1 < lens[vs[k].0 as int] && !seen.contains((vs[k].0, vs[k].1)) by {
                        if k > 0 {
                            assert(vs[k] == ws[k - 1]);
                            assert(!seen1.contains((ws[k - 1].0, ws[k - 1].1)));
                            if seen.contains((vs[k].0, vs[k].1)) {
                                let j = choose|j: int| 0 <= j < seen.len() && seen[j] == (vs[k].0, vs[k].1);
                                assert(seen1[j] == seen[j]);
                            }
                        }
                    }
                    assert forall|a: int, b: int| 0 <= a < b < vs.len() implies !((#[trigger] vs[a]).0 == (
                    #[trigger] vs[b]).0 && vs[a].1 == vs[b].1) by {
                        assert(vs[b] == ws[b - 1]);
                        if a == 0 {
                            assert(!seen1.contains((ws[b - 1].0, ws[b - 1].1)));
                            assert(seen1[seen.len() as int] == (v.0, v.1));
                        } else {
                            assert(vs[a] == ws[a - 1]);
                        }
                    }
                }
            },
            Err(_) => {},
        }
    }
}

/// Input index entries read name pins within `lens` and workflow inputs
/// below `n_names`.
proof fn lemma_index_names_pins(s: Seq<u8>, n: nat, lens: Seq<int>, n_names: int)
    ensures
        index_read(s, n, lens, n_names) is Ok ==> forall|k: int|
            0 <= k < index_read(s, n, lens, n_names)->Ok_0.0.len() ==> {
                let v = #[trigger] index_read(s, n, lens, n_names)->Ok_0.0[k];
                v.0 < lens.len() && v.1 < lens[v.0 as int] && v.2 < n_names
            },
    decreases n,
{
    if n > 0 {
        match index_entry_read(s) {
            Ok((v, t)) => {
                lemma_index_names_pins(t, (n - 1) as nat, lens, n_names);
                if index_read(s, n, lens, n_names) is Ok {
                    let vs = index_read(s, n, lens, n_names)->Ok_0.0;
                    let ws = index_read(t, (n - 1) as nat, lens, n_names)->Ok_0.0;
                    assert(vs == seq![v] + ws);
                    assert forall|k: int| 0 <= k < vs.len() implies {
                        let x = #[trigger] vs[k];
                        x.0 < lens.len() && x.1 < lens[x.0 as int] && x.2 < n_names
                    } by {
                        if k > 0 {
                            assert(vs[k] == ws[k - 1]);
                        }
                    }
                }
            },
            Err(_) => {},
        }
    }
}

/// The first entries read (node infos, labels, comments) name what the
/// graph's nodes hold.
proof fn lemma_first_names_nodes(s: Seq<u8>, nodes: Seq<(u32, u32)>)
    ensures
        first_read(s, nodes) is Ok ==> {
            let v = first_read(s, nodes)->Ok_0;
            &&& v.0.len() == nodes.len()
            &&& forall|k: int|
                0 <= k < v.1.len() ==> (#[trigger] v.1[k]).0 < nodes.len() && v.1[k].1 < nodes[v.1[k].0 as int].0
            &&& forall|k: int|
                0 <= k < v.2.len() ==> (#[trigger] v.2[k]).0 < nodes.len() && v.2[k].1 < nodes[v.2[k].0 as int].1
            &&& forall|k: int| 0 <= k < v.3.len() ==> (#[trigger] v.3[k]).0 < nodes.len()
        },
{
    reveal(first_read);
    let il = input_lens(nodes);
    let ol = output_lens(nodes);
    let s1 = key_res(s, "node_infos"@)->Ok_0;
    let (n1, s2) = array_res(s1)->Ok_0;
    lemma_infos_count(s2, n1 as nat);
    let s3 = infos_read(s2, n1 as nat)->Ok_0.1;
    let s4 = key_res(s3, "input_labels"@)->Ok_0;
    let (n2, s5) = array_res(s4)->Ok_0;
    lemma_labels_name_pins(s5, n2 as nat, il);
    let s6 = labels_read(s5, n2 as nat, il)->Ok_0.1;
    let s7 = key_res(s6, "output_labels"@)->Ok_0;
    let (n3, s8) = array_res(s7)->Ok_0;
    lemma_labels_name_pins(s8, n3 as nat, ol);
    let s9 = labels_read(s8, n3 as nat, ol)->Ok_0.1;
    let s10 = key_res(s9, "node_comments"@)->Ok_0;
    let (n4, s11) = map_res(s10)->Ok_0;
    lemma_comments_name_nodes(s11, n4 as nat, nodes.len() as int);
}

/// The later entries read (workflow outputs, input names, input index)
/// name what the graph's nodes hold, and no output pin twice.
proof fn lemma_second_names_pins(s: Seq<u8>, nodes: Seq<(u32, u32)>)
    ensures
        second_read(s, nodes) is Ok ==> {
            let v = second_read(s, nodes)->Ok_0;
            &&& forall|k: int|
                0 <= k < v.0.len() ==> (#[trigger] v.0[k]).0 < nodes.len() && v.0[k].1 < nodes[v.0[k].0 as int].1
            &&& forall|a: int, b: int|
                0 <= a < b < v.0.len() ==> !((#[trigger] v.0[a]).0 == (#[trigger] v.0[b]).0 && v.0[a].1 == v.0[b].1)
            &&& forall|k: int|
                0 <= k < v.2.len() ==> (#[trigger] v.2[k]).0 < nodes.len() && v.2[k].1 < nodes[v.2[k].0 as int].0
                    && v.2[k].2 < v.1.len()
        },
{
    reveal(second_read);
    let il = input_lens(nodes);
    let ol = output_lens(nodes);
    let s1 = key_res(s, "workflow_outputs"@)->Ok_0;
    let (n1, s2) = array_res(s1)->Ok_0;
    lemma_outputs_name_pins(s2, n1 as nat, ol, Seq::empty());
    let s3 = outputs_read(s2, n1 as nat, ol, Seq::empty())->Ok_0.1;
    let s4 = key_res(s3, "workflow_input_names"@)->Ok_0;
    let (n2, s5) = array_res(s4)->Ok_0;
    let (names, s6) = strings_read(s5, n2 as nat)->Ok_0;
    let s7 = key_res(s6, "workflow_input_index"@)->Ok_0;
    let (n3, s8) = array_res(s7)->Ok_0;
    lemma_index_names_pins(s8, n3 as nat, il, names.len() as int);
}

/// What a successful read of a workflow file gives names only what is
/// there: every link joins existing pins, there is a node info for each
/// node, every label, comment, workflow output and input index entry names
/// an existing node or pin (an output pin at most once), every input index
/// entry names a workflow input that was read, and the same holds of every
/// nested workflow. A file that names a node or pin past those of its graph
/// is refused.
pub proof fn law_read_names_what_is_there(s: Seq<u8>)
    ensures
        workflow_read(s) is Ok ==> entries_valid(workflow_read(s)->Ok_0.0),
    decreases s.len(), 0nat,
{
    if workflow_read(s) is Ok {
        reveal(head_read);
        let (nodes, links, t) = head_read(s)->Ok_0;
        lemma_first_names_nodes(t, nodes);
        let m = first_read(t, nodes)->Ok_0.4;
        lemma_second_names_pins(m, nodes);
        let u0 = second_read(m, nodes)->Ok_0.3;
        let u1 = key_res(u0, "nested_workflows"@)->Ok_0;
        let (n, u) = array_res(u1)->Ok_0;
        lemma_nested_names_what_is_there(u, n as nat);
        let e = workflow_read(s)->Ok_0.0;
        assert(links_fit(nodes, links));
        assert forall|k: int| 0 <= k < e.links.len() implies {
            let f = #[trigger] e.links[k];
            &&& f.0 < e.nodes.len() && f.1 < e.nodes[f.0 as int].1
            &&& f.2 < e.nodes.len() && f.3 < e.nodes[f.2 as int].0
        } by {
            assert(link_fits(nodes, links[k]));
        }
    }
}

/// Every nested workflow read names only what is there.
proof fn lemma_nested_names_what_is_there(s: Seq<u8>, n: nat)
    ensures
        nested_read(s, n) is Ok ==> forall|k: int|
            0 <= k < nested_read(s, n)->Ok_0.0.len() ==> entries_valid((#[trigger] nested_read(s, n)->Ok_0.0[k]).1),
    decreases s.len(), n,
{
    if n > 0 && nested_read(s, n) is Ok {
        let t = header_res(s, 2)->Ok_0;
        let (name, u) = str_res(t)->Ok_0;
        assert(u.len() < s.len());
        law_read_names_what_is_there(u);
        let (w, v) = workflow_read(u)->Ok_0;
        assert(v.len() < s.len());
        lemma_nested_names_what_is_there(v, (n - 1) as nat);
        let vs = nested_read(s, n)->Ok_0.0;
        let ws = nested_read(v, (n - 1) as nat)->Ok_0.0;
        assert(vs == seq![(name, w)] + ws);
        assert forall|k: int| 0 <= k < vs.len() implies entries_valid((#[trigger] vs[k]).1) by {
            if k > 0 {
                assert(vs[k] == ws[k - 1]);
            }
        }
    }
}

} // verus!
