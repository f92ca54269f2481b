//! The graph part of the workflow file: a MessagePack array
//! `[version, nodes, links]`, where each node is written as
//! `[n_inputs, n_outputs]` and each link as
//! `[src_node, src_place, dst_node, dst_place]`, a pin being given by its
//! node and its place among the pins of that node.
use vstd::prelude::*;

use rmp::decode::Bytes;
use rmp::encode::ByteBuf;

use crate::error::DagError;
use crate::graph::{Graph, Input, Link, Node, Output, IH, LH, NH, OH};
use crate::msgpack::{
    array_len_bytes, array_len_read, buf_bytes, lemma_array_len_roundtrip, lemma_u32_roundtrip, lemma_u64_roundtrip,
    read_array_len, read_u32, read_u64, u32_bytes, u32_read, u64_bytes, u64_read, unread, write_array_len, write_u32,
    write_u64,
};
use crate::nested::NestedVec;

verus! {

/// The version of the graph format written and accepted.
pub const GRAPH_MSGPACK_VERSION_CURRENT: u64 = 1;

/// The bytes of one node: `[n_inputs, n_outputs]`.
pub open spec fn node_entry_bytes(e: (u32, u32)) -> Seq<u8> {
    array_len_bytes(2) + u32_bytes(e.0) + u32_bytes(e.1)
}

/// The bytes of one link: `[src_node, src_place, dst_node, dst_place]`.
pub open spec fn link_entry_bytes(e: (u32, u32, u32, u32)) -> Seq<u8> {
    array_len_bytes(4) + u32_bytes(e.0) + u32_bytes(e.1) + u32_bytes(e.2) + u32_bytes(e.3)
}

/// The node entries one after the other.
pub open spec fn nodes_bytes(nodes: Seq<(u32, u32)>) -> Seq<u8>
    decreases nodes.len(),
{
    if nodes.len() == 0 {
        Seq::empty()
    } else {
        nodes_bytes(nodes.drop_last()) + node_entry_bytes(nodes.last())
    }
}

/// The link entries one after the other.
pub open spec fn links_bytes(links: Seq<(u32, u32, u32, u32)>) -> Seq<u8>
    decreases links.len(),
{
    if links.len() == 0 {
        Seq::empty()
    } else {
        links_bytes(links.drop_last()) + link_entry_bytes(links.last())
    }
}

/// The whole graph: `[version, [node, ...], [link, ...]]`. The counts are
/// written as `u32`.
pub open spec fn layout_bytes(nodes: Seq<(u32, u32)>, links: Seq<(u32, u32, u32, u32)>) -> Seq<u8> {
    array_len_bytes(3) + u64_bytes(GRAPH_MSGPACK_VERSION_CURRENT) + array_len_bytes(nodes.len() as u32)
        + nodes_bytes(nodes) + array_len_bytes(links.len() as u32) + links_bytes(links)
}

/// One node entry at the front of `s`, and the bytes after it.
pub open spec fn node_entry_read(s: Seq<u8>) -> Option<((u32, u32), Seq<u8>)> {
    match array_len_read(s) {
        Some((len, a)) => if len != 2 {
            None
        } else {
            let s1 = s.skip(a as int);
            match u32_read(s1) {
                Some((x, b)) => {
                    let s2 = s1.skip(b as int);
                    match u32_read(s2) {
                        Some((y, c)) => Some(((x, y), s2.skip(c as int))),
                        None => None,
                    }
                },
                None => None,
            }
        },
        None => None,
    }
}

/// One link entry at the front of `s`, and the bytes after it.
pub open spec fn link_entry_read(s: Seq<u8>) -> Option<((u32, u32, u32, u32), Seq<u8>)> {
    match array_len_read(s) {
        Some((len, a)) => if len != 4 {
            None
        } else {
            let s1 = s.skip(a as int);
            match u32_read(s1) {
                Some((x0, b0)) => {
                    let s2 = s1.skip(b0 as int);
                    match u32_read(s2) {
                        Some((x1, b1)) => {
                            let s3 = s2.skip(b1 as int);
                            match u32_read(s3) {
                                Some((x2, b2)) => {
                                    let s4 = s3.skip(b2 as int);
                                    match u32_read(s4) {
                                        Some((x3, b3)) => Some(((x0, x1, x2, x3), s4.skip(b3 as int))),
                                        None => None,
                                    }
                                },
                                None => None,
                            }
                        },
                        None => None,
                    }
                },
                None => None,
            }
        },
        None => None,
    }
}

/// `count` node entries at the front of `s`, and the bytes after them.
pub open spec fn nodes_read(s: Seq<u8>, count: nat) -> Option<(Seq<(u32, u32)>, Seq<u8>)>
    decreases count,
{
    if count == 0 {
        Some((Seq::empty(), s))
    } else {
        match node_entry_read(s) {
            Some((e, s1)) => match nodes_read(s1, (count - 1) as nat) {
                Some((es, s2)) => Some((seq![e] + es, s2)),
                None => None,
            },
            None => None,
        }
    }
}

/// `count` link entries at the front of `s`, and the bytes after them.
pub open spec fn links_read(s: Seq<u8>, count: nat) -> Option<(Seq<(u32, u32, u32, u32)>, Seq<u8>)>
    decreases count,
{
    if count == 0 {
        Some((Seq::empty(), s))
    } else {
        match link_entry_read(s) {
            Some((e, s1)) => match links_read(s1, (count - 1) as nat) {
                Some((es, s2)) => Some((seq![e] + es, s2)),
                None => None,
            },
            None => None,
        }
    }
}

/// The links part of a graph at the front of `s`, after its `nodes`: the
/// nodes, the links and the bytes after them.
pub open spec fn links_part_read(nodes: Seq<(u32, u32)>, s: Seq<u8>) -> Result<
    (Seq<(u32, u32)>, Seq<(u32, u32, u32, u32)>, Seq<u8>),
    DagError,
> {
    match array_len_read(s) {
        None => Err(DagError::ReadError),
        Some((n_links, d)) => match links_read(s.skip(d as int), n_links as nat) {
            None => Err(DagError::ReadError),
            Some((links, rest)) => Ok((nodes, links, rest)),
        },
    }
}

/// The graph at the front of `s`: its nodes, its links and the bytes after
/// it; `VersionMismatch` for another version, `ReadError` for anything else
/// that does not parse.
pub open spec fn layout_read(s: Seq<u8>) -> Result<(Seq<(u32, u32)>, Seq<(u32, u32, u32, u32)>, Seq<u8>), DagError> {
    match array_len_read(s) {
        None => Err(DagError::ReadError),
        Some((outer, a)) => if outer != 3 {
            Err(DagError::ReadError)
        } else {
            let s1 = s.skip(a as int);
            match u64_read(s1) {
                None => Err(DagError::ReadError),
                Some((version, b)) => if version != GRAPH_MSGPACK_VERSION_CURRENT {
                    Err(DagError::VersionMismatch)
                } else {
                    let s2 = s1.skip(b as int);
                    match array_len_read(s2) {
                        None => Err(DagError::ReadError),
                        Some((n_nodes, c)) => match nodes_read(s2.skip(c as int), n_nodes as nat) {
                            None => Err(DagError::ReadError),
                            Some((nodes, s3)) => links_part_read(nodes, s3),
                        },
                    }
                },
            }
        },
    }
}

/// The link names an existing node and an existing pin of it at both ends.
pub open spec fn link_fits(nodes: Seq<(u32, u32)>, e: (u32, u32, u32, u32)) -> bool {
    &&& e.0 < nodes.len()
    &&& e.1 < nodes[e.0 as int].1
    &&& e.2 < nodes.len()
    &&& e.3 < nodes[e.2 as int].0
}

/// Every link fits the nodes.
pub open spec fn links_fit(nodes: Seq<(u32, u32)>, links: Seq<(u32, u32, u32, u32)>) -> bool {
    forall|k: int| 0 <= k < links.len() ==> link_fits(nodes, #[trigger] links[k])
}

/// A later link of `links` ends at the same pin as link `k`.
pub open spec fn superseded(links: Seq<(u32, u32, u32, u32)>, k: int) -> bool {
    exists|j: int| k < j < links.len() && (#[trigger] links[j]).2 == links[k].2 && links[j].3 == links[k].3
}

proof fn lemma_node_entry_roundtrip(e: (u32, u32), rest: Seq<u8>)
    ensures
        node_entry_read(node_entry_bytes(e) + rest) == Some((e, rest)),
{
    let x = u32_bytes(e.0);
    let y = u32_bytes(e.1);
    assert(node_entry_bytes(e) + rest =~= array_len_bytes(2) + (x + (y + rest)));
    lemma_array_len_roundtrip(2, x + (y + rest));
    lemma_u32_roundtrip(e.0, y + rest);
    lemma_u32_roundtrip(e.1, rest);
}

proof fn lemma_link_entry_roundtrip(e: (u32, u32, u32, u32), rest: Seq<u8>)
    ensures
        link_entry_read(link_entry_bytes(e) + rest) == Some((e, rest)),
{
    let x0 = u32_bytes(e.0);
    let x1 = u32_bytes(e.1);
    let x2 = u32_bytes(e.2);
    let x3 = u32_bytes(e.3);
    assert(link_entry_bytes(e) + rest =~= array_len_bytes(4) + (x0 + (x1 + (x2 + (x3 + rest)))));
    lemma_array_len_roundtrip(4, x0 + (x1 + (x2 + (x3 + rest))));
    lemma_u32_roundtrip(e.0, x1 + (x2 + (x3 + rest)));
    lemma_u32_roundtrip(e.1, x2 + (x3 + rest));
    lemma_u32_roundtrip(e.2, x3 + rest);
    lemma_u32_roundtrip(e.3, rest);
}

proof fn lemma_nodes_bytes_front(ns: Seq<(u32, u32)>)
    requires
        ns.len() > 0,
    ensures
        nodes_bytes(ns) == node_entry_bytes(ns[0]) + nodes_bytes(ns.drop_first()),
    decreases ns.len(),
{
    if ns.len() == 1 {
        assert(ns.drop_last() =~= Seq::<(u32, u32)>::empty());
        assert(ns.drop_first() =~= Seq::<(u32, u32)>::empty());
        assert(nodes_bytes(ns) =~= node_entry_bytes(ns[0]) + nodes_bytes(ns.drop_first()));
    } else {
        lemma_nodes_bytes_front(ns.drop_last());
        assert(ns.drop_last().drop_first() =~= ns.drop_first().drop_last());
        assert(nodes_bytes(ns) =~= node_entry_bytes(ns[0]) + nodes_bytes(ns.drop_first()));
    }
}

proof fn lemma_links_bytes_front(ls: Seq<(u32, u32, u32, u32)>)
    requires
        ls.len() > 0,
    ensures
        links_bytes(ls) == link_entry_bytes(ls[0]) + links_bytes(ls.drop_first()),
    decreases ls.len(),
{
    if ls.len() == 1 {
        assert(ls.drop_last() =~= Seq::<(u32, u32, u32, u32)>::empty());
        assert(ls.drop_first() =~= Seq::<(u32, u32, u32, u32)>::empty());
        assert(links_bytes(ls) =~= link_entry_bytes(ls[0]) + links_bytes(ls.drop_first()));
    } else {
        lemma_links_bytes_front(ls.drop_last());
        assert(ls.drop_last().drop_first() =~= ls.drop_first().drop_last());
        assert(links_bytes(ls) =~= link_entry_bytes(ls[0]) + links_bytes(ls.drop_first()));
    }
}

#[verifier::spinoff_prover]
proof fn lemma_nodes_roundtrip(ns: Seq<(u32, u32)>, rest: Seq<u8>)
    ensures
        nodes_read(nodes_bytes(ns) + rest, ns.len()) == Some((ns, rest)),
    decreases ns.len(),
{
    if ns.len() == 0 {
        assert(nodes_bytes(ns) + rest =~= rest);
        assert(ns =~= Seq::<(u32, u32)>::empty());
    } else {
        lemma_nodes_bytes_front(ns);
        let t = nodes_bytes(ns.drop_first()) + rest;
        assert(nodes_bytes(ns) + rest =~= node_entry_bytes(ns[0]) + t);
        lemma_node_entry_roundtrip(ns[0], t);
        lemma_nodes_roundtrip(ns.drop_first(), rest);
        assert(seq![ns[0]] + ns.drop_first() =~= ns);
    }
}

#[verifier::spinoff_prover]
proof fn lemma_links_roundtrip(ls: Seq<(u32, u32, u32, u32)>, rest: Seq<u8>)
    ensures
        links_read(links_bytes(ls) + rest, ls.len()) == Some((ls, rest)),
    decreases ls.len(),
{
    if ls.len() == 0 {
        assert(links_bytes(ls) + rest =~= rest);
        assert(ls =~= Seq::<(u32, u32, u32, u32)>::empty());
    } else {
        let t = links_bytes(ls.drop_first()) + rest;
        assert(links_bytes(ls) + rest =~= link_entry_bytes(ls[0]) + t) by {
            lemma_links_bytes_front(ls);
        }
        lemma_link_entry_roundtrip(ls[0], t);
        lemma_links_roundtrip(ls.drop_first(), rest);
        assert(seq![ls[0]] + ls.drop_first() =~= ls);
        assert(links_read(link_entry_bytes(ls[0]) + t, ls.len()) == Some((seq![ls[0]] + ls.drop_first(), rest)));
    }
}

proof fn lemma_links_part_roundtrip(nodes: Seq<(u32, u32)>, links: Seq<(u32, u32, u32, u32)>, rest: Seq<u8>)
    requires
        links.len() <= u32::MAX,
    ensures
        links_part_read(nodes, array_len_bytes(links.len() as u32) + (links_bytes(links) + rest)) == Ok::<
            (Seq<(u32, u32)>, Seq<(u32, u32, u32, u32)>, Seq<u8>),
            DagError,
        >((nodes, links, rest)),
{
    let nl = links.len() as u32;
    lemma_array_len_roundtrip(nl, links_bytes(links) + rest);
    lemma_links_roundtrip(links, rest);
}

proof fn lemma_nodes_part_roundtrip(
    nodes: Seq<(u32, u32)>,
    links: Seq<(u32, u32, u32, u32)>,
    rest: Seq<u8>,
)
    requires
        nodes.len() <= u32::MAX,
        links.len() <= u32::MAX,
    ensures
        ({
            let s2 = array_len_bytes(nodes.len() as u32) + (nodes_bytes(nodes) + (array_len_bytes(links.len() as u32) + (
            links_bytes(links) + rest)));
            &&& array_len_read(s2) == Some((nodes.len() as u32, array_len_bytes(nodes.len() as u32).len()))
            &&& nodes_read(s2.skip(array_len_bytes(nodes.len() as u32).len() as int), nodes.len()) == Some(
                (nodes, array_len_bytes(links.len() as u32) + (links_bytes(links) + rest)),
            )
        }),
{
    let nn = nodes.len() as u32;
    let r3 = array_len_bytes(links.len() as u32) + (links_bytes(links) + rest);
    lemma_array_len_roundtrip(nn, nodes_bytes(nodes) + r3);
    lemma_nodes_roundtrip(nodes, r3);
}

/// Reading the bytes written for a layout gives the layout back, and leaves
/// whatever follows them unread.
#[verifier::rlimit(50)]
pub proof fn law_layout_read_inverts_bytes(
    nodes: Seq<(u32, u32)>,
    links: Seq<(u32, u32, u32, u32)>,
    rest: Seq<u8>,
)
    requires
        nodes.len() <= u32::MAX,
        links.len() <= u32::MAX,
    ensures
        layout_read(layout_bytes(nodes, links) + rest) == Ok::<
            (Seq<(u32, u32)>, Seq<(u32, u32, u32, u32)>, Seq<u8>),
            DagError,
        >((nodes, links, rest)),
{
    let nn = nodes.len() as u32;
    let nl = links.len() as u32;
    let r3 = array_len_bytes(nl) + (links_bytes(links) + rest);
    let r2 = nodes_bytes(nodes) + r3;
    let r1 = array_len_bytes(nn) + r2;
    let r0 = u64_bytes(GRAPH_MSGPACK_VERSION_CURRENT) + r1;
    assert(layout_bytes(nodes, links) + rest =~= array_len_bytes(3) + r0);
    lemma_array_len_roundtrip(3, r0);
    lemma_u64_roundtrip(GRAPH_MSGPACK_VERSION_CURRENT, r1);
    lemma_nodes_part_roundtrip(nodes, links, rest);
    lemma_links_part_roundtrip(nodes, links, rest);
    assert(nodes_read(r1.skip(array_len_bytes(nn).len() as int), nn as nat) == Some((nodes, r3)));
}

impl Graph {
    /// The numbers of input and output pins of node `n`.
    pub open spec fn node_arity(&self, n: int) -> (u32, u32) {
        (self.input_pins(n).len() as u32, self.output_pins(n).len() as u32)
    }

    /// Link `l` as the node and place of its output, then of its input.
    pub open spec fn link_ends(&self, l: int) -> (u32, u32, u32, u32) {
        let o = self.link_seq()[l].start.idx as int;
        let i = self.link_seq()[l].end.idx as int;
        (
            self.output_seq()[o].node.idx as u32,
            self.output_place(o) as u32,
            self.input_seq()[i].node.idx as u32,
            self.input_place(i) as u32,
        )
    }

    /// The arities of the nodes, in order.
    pub open spec fn layout_nodes(&self) -> Seq<(u32, u32)> {
        Seq::new(self.node_seq().len(), |n: int| self.node_arity(n))
    }

    /// The ends of the links, in order.
    pub open spec fn layout_links(&self) -> Seq<(u32, u32, u32, u32)> {
        Seq::new(self.link_seq().len(), |l: int| self.link_ends(l))
    }

    /// The counts the format writes as `u32` fit: the number of nodes, the
    /// number of links and the number of pins of each node.
    pub open spec fn counts_fit(&self) -> bool {
        &&& self.node_seq().len() <= u32::MAX
        &&& self.link_seq().len() <= u32::MAX
        &&& forall|n: int| 0 <= n < self.node_seq().len() ==> (#[trigger] self.input_pins(n)).len() <= u32::MAX
        &&& forall|n: int| 0 <= n < self.node_seq().len() ==> (#[trigger] self.output_pins(n)).len() <= u32::MAX
    }

    /// Some element is marked deleted.
    pub open spec fn has_deleted(&self) -> bool {
        ||| exists|i: int| 0 <= i < self.input_seq().len() && (#[trigger] self.input_seq()[i]).deleted
        ||| exists|o: int| 0 <= o < self.output_seq().len() && (#[trigger] self.output_seq()[o]).deleted
        ||| exists|l: int| 0 <= l < self.link_seq().len() && (#[trigger] self.link_seq()[l]).deleted
        ||| exists|n: int| 0 <= n < self.node_seq().len() && (#[trigger] self.node_seq()[n]).deleted
    }
}

/// The entries read before, followed by the entries of `r`.
pub open spec fn prepend_nodes(
    done: Seq<(u32, u32)>,
    r: Option<(Seq<(u32, u32)>, Seq<u8>)>,
) -> Option<(Seq<(u32, u32)>, Seq<u8>)> {
    match r {
        Some((es, rest)) => Some((done + es, rest)),
        None => None,
    }
}

/// The entries read before, followed by the entries of `r`.
pub open spec fn prepend_links(
    done: Seq<(u32, u32, u32, u32)>,
    r: Option<(Seq<(u32, u32, u32, u32)>, Seq<u8>)>,
) -> Option<(Seq<(u32, u32, u32, u32)>, Seq<u8>)> {
    match r {
        Some((es, rest)) => Some((done + es, rest)),
        None => None,
    }
}

impl Graph {
    /// `self` is `old` with `nodes` and `links` added the way reading adds
    /// them: node `k` becomes node `old.node_seq().len() + k` with the given
    /// numbers of pins, link `k` joins the pins named by node and place and
    /// is deleted when a later link ends at the same pin, and what was there
    /// before stays.
    pub open spec fn read_into(&self, old: Graph, nodes: Seq<(u32, u32)>, links: Seq<(u32, u32, u32, u32)>) -> bool {
        let on = old.node_seq().len() as int;
        let ol = old.link_seq().len() as int;
        &&& self.node_seq().len() == on + nodes.len()
        &&& forall|n: int|
            0 <= n < on ==> #[trigger] self.input_pins(n) == old.input_pins(n) && self.output_pins(n)
                == old.output_pins(n)
        &&& forall|k: int| 0 <= k < nodes.len() ==> (#[trigger] self.input_pins(on + k)).len() == nodes[k].0
        &&& forall|k: int| 0 <= k < nodes.len() ==> (#[trigger] self.output_pins(on + k)).len() == nodes[k].1
        &&& self.link_seq().len() == ol + links.len()
        &&& forall|m: int|
            0 <= m < ol ==> {
                &&& (#[trigger] self.link_seq()[m]).start == old.link_seq()[m].start
                &&& self.link_seq()[m].end == old.link_seq()[m].end
                &&& self.link_seq()[m].deleted == old.link_seq()[m].deleted
            }
        &&& forall|k: int|
            0 <= k < links.len() ==> {
                let e = links[k];
                &&& (#[trigger] self.link_seq()[ol + k]).start.idx == self.output_pins(on + e.0)[e.1 as int]
                &&& self.link_seq()[ol + k].end.idx == self.input_pins(on + e.2)[e.3 as int]
                &&& self.link_seq()[ol + k].deleted == superseded(links, k)
            }
        &&& forall|i: int| 0 <= i < old.input_seq().len() ==> #[trigger] self.source_of(i) == old.source_of(i)
    }
}

/// A vector of `n` copies of `x`.
pub(crate) fn filled<T: Copy>(x: T, n: usize) -> (v: Vec<T>)
    ensures
        v@ == Seq::new(n as nat, |i: int| x),
{
    let mut v: Vec<T> = Vec::new();
    while v.len() < n
        invariant
            v@.len() <= n,
            forall|i: int| 0 <= i < v@.len() ==> v@[i] == x,
        decreases n - v@.len(),
    {
        v.push(x);
    }
    assert(v@ =~= Seq::new(n as nat, |i: int| x));
    v
}

fn any_input_deleted(v: &[Input]) -> (r: bool)
    ensures
        r == exists|i: int| 0 <= i < v@.len() && (#[trigger] v@[i]).deleted,
{
    let mut k: usize = 0;
    while k < v.len()
        invariant
            0 <= k <= v@.len(),
            forall|i: int| 0 <= i < k ==> !(#[trigger] v@[i]).deleted,
        decreases v@.len() - k,
    {
        if v[k].deleted {
            return true;
        }
        k = k + 1;
    }
    false
}

fn any_output_deleted(v: &[Output]) -> (r: bool)
    ensures
        r == exists|i: int| 0 <= i < v@.len() && (#[trigger] v@[i]).deleted,
{
    let mut k: usize = 0;
    while k < v.len()
        invariant
            0 <= k <= v@.len(),
            forall|i: int| 0 <= i < k ==> !(#[trigger] v@[i]).deleted,
        decreases v@.len() - k,
    {
        if v[k].deleted {
            return true;
        }
        k = k + 1;
    }
    false
}

fn any_link_deleted(v: &[Link]) -> (r: bool)
    ensures
        r == exists|i: int| 0 <= i < v@.len() && (#[trigger] v@[i]).deleted,
{
    let mut k: usize = 0;
    while k < v.len()
        invariant
            0 <= k <= v@.len(),
            forall|i: int| 0 <= i < k ==> !(#[trigger] v@[i]).deleted,
        decreases v@.len() - k,
    {
        if v[k].deleted {
            return true;
        }
        k = k + 1;
    }
    false
}

fn any_node_deleted(v: &[Node]) -> (r: bool)
    ensures
        r == exists|i: int| 0 <= i < v@.len() && (#[trigger] v@[i]).deleted,
{
    let mut k: usize = 0;
    while k < v.len()
        invariant
            0 <= k <= v@.len(),
            forall|i: int| 0 <= i < k ==> !(#[trigger] v@[i]).deleted,
        decreases v@.len() - k,
    {
        if v[k].deleted {
            return true;
        }
        k = k + 1;
    }
    false
}

/// A vector of `n` zeros.
fn zeros(n: usize) -> (v: Vec<u32>)
    ensures
        v@ == Seq::new(n as nat, |i: int| 0u32),
{
    let mut v: Vec<u32> = Vec::new();
    while v.len() < n
        invariant
            v@.len() <= n,
            forall|i: int| 0 <= i < v@.len() ==> v@[i] == 0u32,
        decreases n - v@.len(),
    {
        v.push(0);
    }
    assert(v@ =~= Seq::new(n as nat, |i: int| 0u32));
    v
}

impl Graph {
    /// Writes the graph as `[version, nodes, links]`. A graph holding
    /// deleted elements is refused with `GarbageCollectionRequired` and
    /// nothing is written. `oh_local` and `ih_local` are scratch space; they
    /// end up holding the place of each output and input pin.
    pub fn write_to_msgpack(&self, w: &mut ByteBuf, oh_local: &mut Vec<u32>, ih_local: &mut Vec<u32>) -> (r: Result<
        (),
        DagError,
    >)
        requires
            self.wf(),
            forall|n: int|
                0 <= n < self.node_seq().len() ==> (#[trigger] self.input_pins(n)).len() <= u32::MAX
                    && self.output_pins(n).len() <= u32::MAX,
        ensures
            r == (if self.has_deleted() {
                Err::<(), DagError>(DagError::GarbageCollectionRequired)
            } else {
                Ok::<(), DagError>(())
            }),
            r is Err ==> buf_bytes(*final(w)) == buf_bytes(*old(w)) && final(oh_local)@ == old(oh_local)@
                && final(ih_local)@ == old(ih_local)@,
            r is Ok ==> buf_bytes(*final(w)) == buf_bytes(*old(w)) + layout_bytes(
                self.layout_nodes(),
                self.layout_links(),
            ),
            r is Ok ==> final(oh_local)@ == Seq::new(
                self.output_seq().len(),
                |o: int| self.output_place(o) as u32,
            ),
            r is Ok ==> final(ih_local)@ == Seq::new(self.input_seq().len(), |i: int| self.input_place(i) as u32),
    {
        proof {
            self.lemma_pins();
        }
        let inputs = self.inputs();
        let outputs = self.outputs();
        let links = self.links();
        let nodes = self.nodes();
        if any_input_deleted(inputs) || any_output_deleted(outputs) || any_link_deleted(links) || any_node_deleted(
            nodes,
        ) {
            // A graph with stale deleted elements is never written: the
            // caller has to collect the garbage first.
            return Err(DagError::GarbageCollectionRequired);
        }
        let ghost start = buf_bytes(*w);
        let ghost lnodes = self.layout_nodes();
        let ghost llinks = self.layout_links();
        // Top level: [version, nodes, links].
        if write_array_len(w, 3).is_none() {
            return Err(DagError::WriteError);
        }
        if write_u64(w, GRAPH_MSGPACK_VERSION_CURRENT).is_none() {
            return Err(DagError::WriteError);
        }
        let n_nodes = nodes.len();
        if write_array_len(w, #[verifier::truncate] (n_nodes as u32)).is_none() {
            return Err(DagError::WriteError);
        }
        let ghost head = array_len_bytes(3) + u64_bytes(GRAPH_MSGPACK_VERSION_CURRENT) + array_len_bytes(
            n_nodes as u32,
        );
        assert(buf_bytes(*w) =~= start + head);
        *oh_local = zeros(outputs.len());
        *ih_local = zeros(inputs.len());
        // Nodes: [[n_inputs, n_outputs], ...].
        let mut n: usize = 0;
        while n < n_nodes
            invariant
                self.wf(),
                n_nodes == self.node_seq().len(),
                inputs@ == self.input_seq(),
                outputs@ == self.output_seq(),
                lnodes == self.layout_nodes(),
                0 <= n <= n_nodes,
                forall|m: int|
                    0 <= m < self.node_seq().len() ==> (#[trigger] self.input_pins(m)).len() <= u32::MAX
                        && self.output_pins(m).len() <= u32::MAX,
                buf_bytes(*w) == start + head + nodes_bytes(lnodes.take(n as int)),
                ih_local@.len() == inputs@.len(),
                oh_local@.len() == outputs@.len(),
                forall|i: int|
                    0 <= i < inputs@.len() ==> #[trigger] ih_local@[i] == if inputs@[i].node.idx < n {
                        self.input_place(i) as u32
                    } else {
                        0u32
                    },
                forall|o: int|
                    0 <= o < outputs@.len() ==> #[trigger] oh_local@[o] == if outputs@[o].node.idx < n {
                        self.output_place(o) as u32
                    } else {
                        0u32
                    },
            decreases n_nodes - n,
        {
            proof {
                self.lemma_pins();
            }
            let nh = NH { idx: n };
            let ins = self.node_inputs(nh);
            let mut n_inputs: u32 = 0;
            let mut k: usize = 0;
            while k < ins.len()
                invariant
                    self.wf(),
                    n < self.node_seq().len(),
                    inputs@ == self.input_seq(),
                    ins@.len() == self.input_pins(n as int).len(),
                    ins@.len() <= u32::MAX,
                    forall|j: int| 0 <= j < ins@.len() ==> #[trigger] ins@[j].idx == self.input_pins(n as int)[j],
                    0 <= k <= ins@.len(),
                    n_inputs == k,
                    ih_local@.len() == inputs@.len(),
                    forall|i: int|
                        0 <= i < inputs@.len() ==> #[trigger] ih_local@[i] == if inputs@[i].node.idx < n || (
                        inputs@[i].node.idx == n && self.input_place(i) < k) {
                            self.input_place(i) as u32
                        } else {
                            0u32
                        },
                decreases ins@.len() - k,
            {
                proof {
                    self.lemma_pins();
                }
                let p = ins[k].idx;
                assert(self.input_place(p as int) == k);
                ih_local.set(p, k as u32);
                n_inputs = n_inputs + 1;
                k = k + 1;
                assert forall|i: int| 0 <= i < inputs@.len() implies #[trigger] ih_local@[i] == if inputs@[i].node.idx
                    < n || (inputs@[i].node.idx == n && self.input_place(i) < k) {
                    self.input_place(i) as u32
                } else {
                    0u32
                } by {
                    if i != p as int && inputs@[i].node.idx == n && self.input_place(i) == k - 1 {
                        assert(self.input_pins(n as int)[self.input_place(i)] == i);
                    }
                }
            }
            let outs = self.node_outputs(nh);
            let mut n_outputs: u32 = 0;
            let mut k: usize = 0;
            while k < outs.len()
                invariant
                    self.wf(),
                    n < self.node_seq().len(),
                    outputs@ == self.output_seq(),
                    outs@.len() == self.output_pins(n as int).len(),
                    outs@.len() <= u32::MAX,
                    forall|j: int| 0 <= j < outs@.len() ==> #[trigger] outs@[j].idx == self.output_pins(n as int)[j],
                    0 <= k <= outs@.len(),
                    n_outputs == k,
                    oh_local@.len() == outputs@.len(),
                    forall|o: int|
                        0 <= o < outputs@.len() ==> #[trigger] oh_local@[o] == if outputs@[o].node.idx < n || (
                        outputs@[o].node.idx == n && self.output_place(o) < k) {
                            self.output_place(o) as u32
                        } else {
                            0u32
                        },
                decreases outs@.len() - k,
            {
                proof {
                    self.lemma_pins();
                }
                let p = outs[k].idx;
                assert(self.output_place(p as int) == k);
                oh_local.set(p, k as u32);
                n_outputs = n_outputs + 1;
                k = k + 1;
                assert forall|o: int| 0 <= o < outputs@.len() implies #[trigger] oh_local@[o] == if outputs@[o].node.idx
                    < n || (outputs@[o].node.idx == n && self.output_place(o) < k) {
                    self.output_place(o) as u32
                } else {
                    0u32
                } by {
                    if o != p as int && outputs@[o].node.idx == n && self.output_place(o) == k - 1 {
                        assert(self.output_pins(n as int)[self.output_place(o)] == o);
                    }
                }
            }
            let ghost before = buf_bytes(*w);
            if write_array_len(w, 2).is_none() {
                return Err(DagError::WriteError);
            }
            if write_u32(w, n_inputs).is_none() {
                return Err(DagError::WriteError);
            }
            if write_u32(w, n_outputs).is_none() {
                return Err(DagError::WriteError);
            }
            proof {
                assert(lnodes[n as int] == (n_inputs, n_outputs));
                assert(lnodes.take(n as int + 1).drop_last() =~= lnodes.take(n as int));
                assert(buf_bytes(*w) =~= before + node_entry_bytes((n_inputs, n_outputs)));
                assert(buf_bytes(*w) =~= start + head + nodes_bytes(lnodes.take(n as int + 1)));
            }
            n = n + 1;
            assert forall|i: int| 0 <= i < inputs@.len() implies #[trigger] ih_local@[i] == if inputs@[i].node.idx
                < n {
                self.input_place(i) as u32
            } else {
                0u32
            } by {
                if inputs@[i].node.idx == n - 1 {
                    assert(self.input_place(i) < self.input_pins(n - 1).len());
                }
            }
            assert forall|o: int| 0 <= o < outputs@.len() implies #[trigger] oh_local@[o] == if outputs@[o].node.idx
                < n {
                self.output_place(o) as u32
            } else {
                0u32
            } by {
                if outputs@[o].node.idx == n - 1 {
                    assert(self.output_place(o) < self.output_pins(n - 1).len());
                }
            }
        }
        assert(lnodes.take(n_nodes as int) =~= lnodes);
        assert forall|i: int| 0 <= i < inputs@.len() implies #[trigger] ih_local@[i] == self.input_place(i) as u32 by {}
        assert forall|o: int| 0 <= o < outputs@.len() implies #[trigger] oh_local@[o] == self.output_place(o) as u32 by {}
        let ghost body = start + head + nodes_bytes(lnodes);
        // Links: [[src_node, src_place, dst_node, dst_place], ...].
        let n_links = links.len();
        if write_array_len(w, #[verifier::truncate] (n_links as u32)).is_none() {
            return Err(DagError::WriteError);
        }
        let ghost body = body + array_len_bytes(n_links as u32);
        let mut l: usize = 0;
        while l < n_links
            invariant
                self.wf(),
                n_links == self.link_seq().len(),
                links@ == self.link_seq(),
                inputs@ == self.input_seq(),
                outputs@ == self.output_seq(),
                llinks == self.layout_links(),
                0 <= l <= n_links,
                buf_bytes(*w) == body + links_bytes(llinks.take(l as int)),
                forall|i: int| 0 <= i < inputs@.len() ==> #[trigger] ih_local@[i] == self.input_place(i) as u32,
                forall|o: int| 0 <= o < outputs@.len() ==> #[trigger] oh_local@[o] == self.output_place(o) as u32,
                ih_local@.len() == inputs@.len(),
                oh_local@.len() == outputs@.len(),
            decreases n_links - l,
        {
            proof {
                self.lemma_pins();
            }
            let link = links[l];
            let src_node = #[verifier::truncate] (outputs[link.start.idx].node.idx as u32);
            let local_out = oh_local[link.start.idx];
            let dst_node = #[verifier::truncate] (inputs[link.end.idx].node.idx as u32);
            let local_in = ih_local[link.end.idx];
            let ghost before = buf_bytes(*w);
            if write_array_len(w, 4).is_none() {
                return Err(DagError::WriteError);
            }
            if write_u32(w, src_node).is_none() {
                return Err(DagError::WriteError);
            }
            if write_u32(w, local_out).is_none() {
                return Err(DagError::WriteError);
            }
            if write_u32(w, dst_node).is_none() {
                return Err(DagError::WriteError);
            }
            if write_u32(w, local_in).is_none() {
                return Err(DagError::WriteError);
            }
            proof {
                let e = (src_node, local_out, dst_node, local_in);
                assert(llinks[l as int] == e);
                assert(llinks.take(l as int + 1).drop_last() =~= llinks.take(l as int));
                assert(buf_bytes(*w) =~= before + link_entry_bytes(e));
                assert(buf_bytes(*w) =~= body + links_bytes(llinks.take(l as int + 1)));
            }
            l = l + 1;
        }
        proof {
            assert(llinks.take(n_links as int) =~= llinks);
            assert(buf_bytes(*w) =~= start + layout_bytes(lnodes, llinks));
            assert(ih_local@ =~= Seq::new(self.input_seq().len(), |i: int| self.input_place(i) as u32));
            assert(oh_local@ =~= Seq::new(self.output_seq().len(), |o: int| self.output_place(o) as u32));
        }
        Ok(())
    }
}

/// Adding link `e` as reading does keeps `after` a reading of `links`
/// followed by `e`.
proof fn lemma_link_step(
    g0: Graph,
    before: Graph,
    after: Graph,
    nodes: Seq<(u32, u32)>,
    links: Seq<(u32, u32, u32, u32)>,
    e: (u32, u32, u32, u32),
    from: OH,
    to: IH,
)
    requires
        g0.wf(),
        before.wf(),
        after.wf(),
        before.read_into(g0, nodes, links),
        links_fit(nodes, links),
        link_fits(nodes, e),
        forall|k: int, j: int|
            0 <= k < nodes.len() && 0 <= j < before.input_pins(g0.node_seq().len() + k).len() ==> g0.input_seq().len()
                <= #[trigger] before.input_pins(g0.node_seq().len() + k)[j],
        from.idx == before.output_pins(g0.node_seq().len() + e.0)[e.1 as int],
        to.idx == before.input_pins(g0.node_seq().len() + e.2)[e.3 as int],
        forall|i: int|
            0 <= i < before.input_seq().len() && i != to.idx ==> #[trigger] after.source_of(i) == before.source_of(i),
        after.node_seq() == before.node_seq(),
        forall|n: int|
            0 <= n < before.node_seq().len() ==> #[trigger] after.input_pins(n) == before.input_pins(n),
        forall|n: int|
            0 <= n < before.node_seq().len() ==> #[trigger] after.output_pins(n) == before.output_pins(n),
        after.link_seq().len() == before.link_seq().len() + 1,
        after.link_seq()[before.link_seq().len() as int].start == from,
        after.link_seq()[before.link_seq().len() as int].end == to,
        !after.link_seq()[before.link_seq().len() as int].deleted,
        forall|m: int|
            0 <= m < before.link_seq().len() ==> {
                &&& (#[trigger] after.link_seq()[m]).start == before.link_seq()[m].start
                &&& after.link_seq()[m].end == before.link_seq()[m].end
                &&& after.link_seq()[m].deleted == (before.link_seq()[m].deleted || before.input_seq()[to.idx as int].link
                    == Some(LH { idx: m as usize }))
            },
    ensures
        after.read_into(g0, nodes, links.push(e)),
{
    let on = g0.node_seq().len() as int;
    let ol = g0.link_seq().len() as int;
    let nl = links.push(e);
    before.lemma_pins();
    g0.lemma_pins();
    let t = to.idx as int;
    assert(0 <= t < before.input_seq().len());
    // Old links end at old inputs, which the new link does not reach.
    assert(match before.input_seq()[t].link {
        Some(x) => x.idx >= ol,
        None => true,
    }) by {
        assert(before.input_pins(on + e.2)[e.3 as int] >= g0.input_seq().len());
        match before.input_seq()[t].link {
            Some(x) => {
                let m = x.idx as int;
                if m < ol {
                    assert(before.link_seq()[m].end.idx == t);
                    assert(before.link_seq()[m].end == g0.link_seq()[m].end);
                }
            },
            None => {},
        }
    }
    // A new link is the link of `to` exactly when it is live and ends there.
    assert forall|k: int| 0 <= k < links.len() implies (before.input_seq()[t].link == Some(
        LH { idx: (ol + k) as usize },
    )) == (!superseded(links, k) && links[k].2 == e.2 && links[k].3 == e.3) by {
        let lk = before.link_seq()[ol + k];
        let f = links[k];
        assert(lk.end.idx == before.input_pins(on + f.2)[f.3 as int]);
        assert(lk.deleted == superseded(links, k));
        if before.input_seq()[t].link == Some(LH { idx: (ol + k) as usize }) {
            assert(lk.end.idx == t);
            assert(before.input_seq()[t].node.idx == on + f.2);
            assert(before.input_seq()[t].node.idx == on + e.2);
            assert(before.input_place(t) == f.3);
            assert(before.input_place(t) == e.3);
        }
        if !superseded(links, k) && f.2 == e.2 && f.3 == e.3 {
            assert(!lk.deleted);
            assert(lk.end.idx == t);
        }
    }
    assert forall|k: int| 0 <= k < nl.len() implies {
        let f = nl[k];
        &&& (#[trigger] after.link_seq()[ol + k]).start.idx == after.output_pins(on + f.0)[f.1 as int]
        &&& after.link_seq()[ol + k].end.idx == after.input_pins(on + f.2)[f.3 as int]
        &&& after.link_seq()[ol + k].deleted == superseded(nl, k)
    } by {
        if k < links.len() {
            lemma_link_step_earlier(g0, before, after, nodes, links, e, to, k);
        } else {
            assert(k == links.len());
            assert(nl[k] == e);
            assert(after.output_pins(on + e.0) == before.output_pins(on + e.0));
            assert(after.input_pins(on + e.2) == before.input_pins(on + e.2));
        }
    }
}

/// An earlier link read keeps its ends, and is deleted once a later link
/// ends at the same pin.
proof fn lemma_link_step_earlier(
    g0: Graph,
    before: Graph,
    after: Graph,
    nodes: Seq<(u32, u32)>,
    links: Seq<(u32, u32, u32, u32)>,
    e: (u32, u32, u32, u32),
    to: IH,
    k: int,
)
    requires
        0 <= k < links.len(),
        before.read_into(g0, nodes, links),
        links_fit(nodes, links),
        forall|n: int|
            0 <= n < before.node_seq().len() ==> #[trigger] after.input_pins(n) == before.input_pins(n),
        forall|n: int|
            0 <= n < before.node_seq().len() ==> #[trigger] after.output_pins(n) == before.output_pins(n),
        after.link_seq()[g0.link_seq().len() + k].start == before.link_seq()[g0.link_seq().len() + k].start,
        after.link_seq()[g0.link_seq().len() + k].end == before.link_seq()[g0.link_seq().len() + k].end,
        after.link_seq()[g0.link_seq().len() + k].deleted == (before.link_seq()[g0.link_seq().len() + k].deleted
            || (!superseded(links, k) && links[k].2 == e.2 && links[k].3 == e.3)),
    ensures
        ({
            let on = g0.node_seq().len() as int;
            let ol = g0.link_seq().len() as int;
            let f = links.push(e)[k];
            &&& after.link_seq()[ol + k].start.idx == after.output_pins(on + f.0)[f.1 as int]
            &&& after.link_seq()[ol + k].end.idx == after.input_pins(on + f.2)[f.3 as int]
            &&& after.link_seq()[ol + k].deleted == superseded(links.push(e), k)
        }),
{
    let on = g0.node_seq().len() as int;
    let ol = g0.link_seq().len() as int;
    let nl = links.push(e);
    assert(nl[k] == links[k]);
    let f = links[k];
    assert(link_fits(nodes, f));
    assert(after.output_pins(on + f.0) == before.output_pins(on + f.0));
    assert(after.input_pins(on + f.2) == before.input_pins(on + f.2));
    assert(before.link_seq()[ol + k].start.idx == before.output_pins(on + f.0)[f.1 as int]);
    assert(before.link_seq()[ol + k].end.idx == before.input_pins(on + f.2)[f.3 as int]);
    assert(before.link_seq()[ol + k].deleted == superseded(links, k));
    if superseded(links, k) {
        let j = choose|j: int| k < j < links.len() && (#[trigger] links[j]).2 == links[k].2 && links[j].3 == links[k].3;
        assert(nl[j] == links[j]);
    }
    if superseded(nl, k) && !superseded(links, k) {
        let j = choose|j: int| k < j < nl.len() && (#[trigger] nl[j]).2 == nl[k].2 && nl[j].3 == nl[k].3;
        if j < links.len() {
            assert(nl[j] == links[j]);
        }
    }
    if !superseded(links, k) && links[k].2 == e.2 && links[k].3 == e.3 {
        assert(nl[links.len() as int] == e);
    }
}

/// Reads one node entry: `[n_inputs, n_outputs]`.
fn read_node_entry(src: &mut Bytes<'_>) -> (r: Option<(u32, u32)>)
    ensures
        match node_entry_read(unread(*old(src))) {
            Some((e, rest)) => r == Some(e) && unread(*final(src)) == rest,
            None => r is None,
        },
{
    let node_len = match read_array_len(src) {
        Some(v) => v,
        None => return None,
    };
    if node_len != 2 {
        return None;
    }
    let n_inputs = match read_u32(src) {
        Some(v) => v,
        None => return None,
    };
    let n_outputs = match read_u32(src) {
        Some(v) => v,
        None => return None,
    };
    Some((n_inputs, n_outputs))
}

/// Reads one link entry: `[src_node, src_place, dst_node, dst_place]`.
fn read_link_entry(src: &mut Bytes<'_>) -> (r: Option<(u32, u32, u32, u32)>)
    ensures
        match link_entry_read(unread(*old(src))) {
            Some((e, rest)) => r == Some(e) && unread(*final(src)) == rest,
            None => r is None,
        },
{
    let link_len = match read_array_len(src) {
        Some(v) => v,
        None => return None,
    };
    if link_len != 4 {
        return None;
    }
    let src_node = match read_u32(src) {
        Some(v) => v,
        None => return None,
    };
    let local_out = match read_u32(src) {
        Some(v) => v,
        None => return None,
    };
    let dst_node = match read_u32(src) {
        Some(v) => v,
        None => return None,
    };
    let local_in = match read_u32(src) {
        Some(v) => v,
        None => return None,
    };
    Some((src_node, local_out, dst_node, local_in))
}

impl Graph {
    /// Reads `count` node entries and adds a node for each, with pins as
    /// many as the entry says. `false` when the entries do not parse.
    fn read_nodes(
        &mut self,
        src: &mut Bytes<'_>,
        count: usize,
        node_ihs: &mut NestedVec<IH>,
        node_ohs: &mut NestedVec<OH>,
    ) -> (ok: bool)
        requires
            old(self).wf(),
            old(node_ihs).wf(),
            old(node_ohs).wf(),
            old(node_ihs).lists().len() == 0,
            old(node_ohs).lists().len() == 0,
        ensures
            final(self).wf(),
            final(node_ihs).wf(),
            final(node_ohs).wf(),
            ok == nodes_read(unread(*old(src)), count as nat) is Some,
            exists|ns: Seq<(u32, u32)>| #[trigger] final(self).read_into(*old(self), ns, Seq::empty()),
            ok ==> ({
                let (nodes, rest) = nodes_read(unread(*old(src)), count as nat).unwrap();
                let on = old(self).node_seq().len() as int;
                &&& final(self).read_into(*old(self), nodes, Seq::empty())
                &&& unread(*final(src)) == rest
                &&& forall|k: int, j: int|
                    0 <= k < nodes.len() && 0 <= j < final(self).input_pins(on + k).len() ==> old(self).input_seq().len()
                        <= #[trigger] final(self).input_pins(on + k)[j]
                &&& final(node_ihs).lists() == Seq::new(
                    nodes.len(),
                    |k: int| final(self).input_pins(on + k).map_values(|q: int| IH { idx: q as usize }),
                )
                &&& final(node_ohs).lists() == Seq::new(
                    nodes.len(),
                    |k: int| final(self).output_pins(on + k).map_values(|q: int| OH { idx: q as usize }),
                )
            }),
    {
        let ghost g0 = *self;
        let ghost p = unread(*src);
        let ghost on = g0.node_seq().len() as int;
        let ghost mut done: Seq<(u32, u32)> = Seq::empty();
        proof {
            assert(self.read_into(g0, done, Seq::empty()));
            assert(node_ihs.lists() =~= Seq::new(0, |k: int| self.input_pins(on + k).map_values(|q: int| IH { idx: q as usize })));
            assert(node_ohs.lists() =~= Seq::new(0, |k: int| self.output_pins(on + k).map_values(|q: int| OH { idx: q as usize })));
            assert(prepend_nodes(done, nodes_read(p, count as nat)) == nodes_read(p, count as nat)) by {
                match nodes_read(p, count as nat) {
                    Some((es, t)) => {
                        assert(done + es =~= es);
                    },
                    None => {},
                }
            }
        }
        let mut i: usize = 0;
        while i < count
            invariant
                g0.wf(),
                self.wf(),
                node_ihs.wf(),
                node_ohs.wf(),
                on == g0.node_seq().len(),
                g0 == *old(self),
                p == unread(*old(src)),
                0 <= i <= count,
                done.len() == i,
                nodes_read(p, count as nat) == prepend_nodes(done, nodes_read(unread(*src), (count - i) as nat)),
                self.read_into(g0, done, Seq::empty()),
                self.input_seq().len() >= g0.input_seq().len(),
                forall|k: int, j: int|
                    0 <= k < i && 0 <= j < self.input_pins(on + k).len() ==> g0.input_seq().len()
                        <= #[trigger] self.input_pins(on + k)[j],
                node_ihs.lists() == Seq::new(
                    i as nat,
                    |k: int| self.input_pins(on + k).map_values(|q: int| IH { idx: q as usize }),
                ),
                node_ohs.lists() == Seq::new(
                    i as nat,
                    |k: int| self.output_pins(on + k).map_values(|q: int| OH { idx: q as usize }),
                ),
            decreases count - i,
        {
            let ghost cur = unread(*src);
            let (n_inputs, n_outputs) = match read_node_entry(src) {
                Some(e) => e,
                None => {
                    assert(nodes_read(cur, (count - i) as nat) is None);
                    assert(nodes_read(p, count as nat) is None);
                    return false;
                },
            };
            let mut ihs = filled(IH { idx: 0 }, n_inputs as usize);
            let mut ohs = filled(OH { idx: 0 }, n_outputs as usize);
            let ghost before = *self;
            match self.push_node(ihs.as_mut_slice(), ohs.as_mut_slice()) {
                Ok(_) => {},
                Err(_) => return false,
            }
            node_ihs.push_slice(ihs.as_slice());
            node_ohs.push_slice(ohs.as_slice());
            proof {
                self.lemma_pins();
                let e = (n_inputs, n_outputs);
                let nd = done.push(e);
                assert(prepend_nodes(nd, nodes_read(unread(*src), (count - i - 1) as nat)) == prepend_nodes(
                    done,
                    nodes_read(cur, (count - i) as nat),
                )) by {
                    match nodes_read(unread(*src), (count - i - 1) as nat) {
                        Some((es, t)) => {
                            assert(nd + es =~= done + (seq![e] + es));
                        },
                        None => {},
                    }
                }
                assert(self.input_pins(on + i) == Seq::new(n_inputs as nat, |k: int| before.input_seq().len() + k));
                assert(self.output_pins(on + i) == Seq::new(n_outputs as nat, |k: int| before.output_seq().len() + k));
                assert(ihs@ =~= self.input_pins(on + i).map_values(|q: int| IH { idx: q as usize })) by {
                    assert forall|k: int| 0 <= k < ihs@.len() implies ihs@[k] == IH {
                        idx: self.input_pins(on + i)[k] as usize,
                    } by {
                        let x = self.input_pins(on + i)[k];
                        assert(0 <= x < self.input_seq().len());
                        assert(x == before.input_seq().len() + k);
                        assert(ihs@[k].idx == x);
                        assert(ihs@[k] == IH { idx: x as usize });
                    }
                }
                assert(ohs@ =~= self.output_pins(on + i).map_values(|q: int| OH { idx: q as usize })) by {
                    assert forall|k: int| 0 <= k < ohs@.len() implies ohs@[k] == OH {
                        idx: self.output_pins(on + i)[k] as usize,
                    } by {
                        let x = self.output_pins(on + i)[k];
                        assert(0 <= x < self.output_seq().len());
                        assert(x == before.output_seq().len() + k);
                        assert(ohs@[k].idx == x);
                        assert(ohs@[k] == OH { idx: x as usize });
                    }
                }
                assert forall|k: int| 0 <= k < i implies #[trigger] self.output_pins(on + k) == before.output_pins(on + k)
                    && self.input_pins(on + k) == before.input_pins(on + k) by {
                    assert(on + k < before.node_seq().len());
                    assert(self.input_pins(on + k) == before.input_pins(on + k));
                }
                assert(node_ihs.lists() =~= Seq::new(
                    (i + 1) as nat,
                    |k: int| self.input_pins(on + k).map_values(|q: int| IH { idx: q as usize }),
                ));
                assert(node_ohs.lists() =~= Seq::new(
                    (i + 1) as nat,
                    |k: int| self.output_pins(on + k).map_values(|q: int| OH { idx: q as usize }),
                ));
                assert(self.read_into(g0, nd, Seq::empty()));
                done = nd;
            }
            i = i + 1;
        }
        proof {
            assert(nodes_read(unread(*src), 0) == Some((Seq::<(u32, u32)>::empty(), unread(*src))));
            assert(done + Seq::<(u32, u32)>::empty() =~= done);
        }
        true
    }

    /// Reads `count` link entries and adds each link, after checking that
    /// the node and the pin it names at both ends were read.
    fn read_links(
        &mut self,
        src: &mut Bytes<'_>,
        count: usize,
        node_ihs: &NestedVec<IH>,
        node_ohs: &NestedVec<OH>,
        Ghost(g0): Ghost<Graph>,
        Ghost(nodes): Ghost<Seq<(u32, u32)>>,
    ) -> (r: Result<(), DagError>)
        requires
            g0.wf(),
            old(self).wf(),
            node_ihs.wf(),
            node_ohs.wf(),
            old(self).read_into(g0, nodes, Seq::empty()),
            forall|k: int, j: int|
                0 <= k < nodes.len() && 0 <= j < old(self).input_pins(g0.node_seq().len() + k).len()
                    ==> g0.input_seq().len() <= #[trigger] old(self).input_pins(g0.node_seq().len() + k)[j],
            node_ihs.lists() == Seq::new(
                nodes.len(),
                |k: int| old(self).input_pins(g0.node_seq().len() + k).map_values(|q: int| IH { idx: q as usize }),
            ),
            node_ohs.lists() == Seq::new(
                nodes.len(),
                |k: int| old(self).output_pins(g0.node_seq().len() + k).map_values(|q: int| OH { idx: q as usize }),
            ),
        ensures
            final(self).wf(),
            match links_read(unread(*old(src)), count as nat) {
                Some((links, rest)) => if links_fit(nodes, links) {
                    &&& r is Ok
                    &&& final(self).read_into(g0, nodes, links)
                    &&& unread(*final(src)) == rest
                } else {
                    r == Err::<(), DagError>(DagError::ReadError)
                },
                None => r == Err::<(), DagError>(DagError::ReadError),
            },
            final(self).node_seq() == old(self).node_seq(),
            exists|ls: Seq<(u32, u32, u32, u32)>| #[trigger] final(self).read_into(g0, nodes, ls),
            node_ihs.lists() == Seq::new(
                nodes.len(),
                |k: int| final(self).input_pins(g0.node_seq().len() + k).map_values(|q: int| IH { idx: q as usize }),
            ),
            node_ohs.lists() == Seq::new(
                nodes.len(),
                |k: int| final(self).output_pins(g0.node_seq().len() + k).map_values(|q: int| OH { idx: q as usize }),
            ),
    {
        let ghost q = unread(*src);
        let ghost on = g0.node_seq().len() as int;
        let ghost s1 = *self;
        let ghost mut donel: Seq<(u32, u32, u32, u32)> = Seq::empty();
        proof {
            assert(prepend_links(donel, links_read(q, count as nat)) == links_read(q, count as nat)) by {
                match links_read(q, count as nat) {
                    Some((es, t)) => {
                        assert(donel + es =~= es);
                    },
                    None => {},
                }
            }
        }
        let mut l: usize = 0;
        while l < count
            invariant
                g0.wf(),
                self.wf(),
                node_ihs.wf(),
                node_ohs.wf(),
                on == g0.node_seq().len(),
                s1 == *old(self),
                q == unread(*old(src)),
                0 <= l <= count,
                donel.len() == l,
                links_read(q, count as nat) == prepend_links(donel, links_read(unread(*src), (count - l) as nat)),
                self.read_into(g0, nodes, donel),
                links_fit(nodes, donel),
                self.node_seq() == s1.node_seq(),
                forall|n: int|
                    0 <= n < s1.node_seq().len() ==> #[trigger] self.input_pins(n) == s1.input_pins(n)
                        && self.output_pins(n) == s1.output_pins(n),
                forall|k: int, j: int|
                    0 <= k < nodes.len() && 0 <= j < self.input_pins(on + k).len() ==> g0.input_seq().len()
                        <= #[trigger] self.input_pins(on + k)[j],
                node_ihs.lists() == Seq::new(
                    nodes.len(),
                    |k: int| self.input_pins(on + k).map_values(|q: int| IH { idx: q as usize }),
                ),
                node_ohs.lists() == Seq::new(
                    nodes.len(),
                    |k: int| self.output_pins(on + k).map_values(|q: int| OH { idx: q as usize }),
                ),
            decreases count - l,
        {
            let ghost cur = unread(*src);
            let (src_node, local_out, dst_node, local_in) = match read_link_entry(src) {
                Some(e) => e,
                None => {
                    assert(links_read(cur, (count - l) as nat) is None);
                    assert(links_read(q, count as nat) is None);
                    return Err(DagError::ReadError);
                },
            };
            let ghost e = (src_node, local_out, dst_node, local_in);
            proof {
                self.lemma_pins();
                assert(!link_fits(nodes, e) ==> match links_read(q, count as nat) {
                    Some((lks, _)) => !links_fit(nodes, lks),
                    None => true,
                }) by {
                    match links_read(unread(*src), (count - l - 1) as nat) {
                        Some((es, t)) => {
                            let lks = donel + (seq![e] + es);
                            assert(lks[l as int] == e);
                        },
                        None => {},
                    }
                }
            }
            let outs = match node_ohs.get(src_node as usize) {
                Ok(s) => s,
                Err(err) => {
                    assert(!link_fits(nodes, e));
                    return Err(err);
                },
            };
            assert(outs@ == node_ohs.lists()[src_node as int]);
            assert(outs@.len() == self.output_pins(on + src_node).len());
            assert(outs@.len() == nodes[src_node as int].1);
            if local_out as usize >= outs.len() {
                assert(!link_fits(nodes, e));
                return Err(DagError::ReadError);
            }
            let oh = outs[local_out as usize];
            let ins = match node_ihs.get(dst_node as usize) {
                Ok(s) => s,
                Err(err) => {
                    assert(!link_fits(nodes, e));
                    return Err(err);
                },
            };
            assert(ins@ == node_ihs.lists()[dst_node as int]);
            assert(ins@.len() == self.input_pins(on + dst_node).len());
            assert(ins@.len() == nodes[dst_node as int].0);
            if local_in as usize >= ins.len() {
                assert(!link_fits(nodes, e));
                return Err(DagError::ReadError);
            }
            let ih = ins[local_in as usize];
            assert(link_fits(nodes, e));
            let ghost before = *self;
            match self.push_link(oh, ih) {
                Ok(_) => {},
                Err(err) => return Err(err),
            }
            proof {
                lemma_link_step(g0, before, *self, nodes, donel, e, oh, ih);
                assert(prepend_links(donel.push(e), links_read(unread(*src), (count - l - 1) as nat)) == prepend_links(
                    donel,
                    links_read(cur, (count - l) as nat),
                )) by {
                    match links_read(unread(*src), (count - l - 1) as nat) {
                        Some((es, t)) => {
                            assert(donel.push(e) + es =~= donel + (seq![e] + es));
                        },
                        None => {},
                    }
                }
                assert forall|k: int| 0 <= k < donel.len() + 1 implies link_fits(nodes, #[trigger] donel.push(e)[k]) by {
                    if k < donel.len() {
                        assert(donel.push(e)[k] == donel[k]);
                    }
                }
                donel = donel.push(e);
            }
            l = l + 1;
        }
        proof {
            assert(links_read(unread(*src), 0) == Some((Seq::<(u32, u32, u32, u32)>::empty(), unread(*src))));
            assert(donel + Seq::<(u32, u32, u32, u32)>::empty() =~= donel);
        }
        Ok(())
    }

    /// Reads a graph written by `write_to_msgpack` and adds its nodes and
    /// links to this graph. `node_ihs` and `node_ohs` are cleared and then
    /// receive the pins of each node read. `VersionMismatch` for another
    /// version of the format, `ReadError` when the bytes do not parse or a
    /// link names a node or a pin that is not there. Whatever the outcome,
    /// the graph keeps what it held and gains the nodes and links read so
    /// far, each link in the place of its entry.
    pub fn read_from_msgpack(
        &mut self,
        src: &mut Bytes<'_>,
        node_ihs: &mut NestedVec<IH>,
        node_ohs: &mut NestedVec<OH>,
    ) -> (r: Result<(), DagError>)
        requires
            old(self).wf(),
            old(node_ihs).wf(),
            old(node_ohs).wf(),
        ensures
            final(self).wf(),
            final(node_ihs).wf(),
            final(node_ohs).wf(),
            exists|ns: Seq<(u32, u32)>, ls: Seq<(u32, u32, u32, u32)>| #[trigger] final(self).read_into(
                *old(self),
                ns,
                ls,
            ),
            match layout_read(unread(*old(src))) {
                Ok((nodes, links, rest)) => if links_fit(nodes, links) {
                    &&& r is Ok
                    &&& final(self).read_into(*old(self), nodes, links)
                    &&& unread(*final(src)) == rest
                    &&& final(node_ihs).lists() == Seq::new(
                        nodes.len(),
                        |k: int|
                            final(self).input_pins(old(self).node_seq().len() + k).map_values(
                                |q: int| IH { idx: q as usize },
                            ),
                    )
                    &&& final(node_ohs).lists() == Seq::new(
                        nodes.len(),
                        |k: int|
                            final(self).output_pins(old(self).node_seq().len() + k).map_values(
                                |q: int| OH { idx: q as usize },
                            ),
                    )
                } else {
                    r == Err::<(), DagError>(DagError::ReadError)
                },
                Err(e) => r == Err::<(), DagError>(e),
            },
    {
        let ghost g0 = *self;
        assert(self.read_into(g0, Seq::empty(), Seq::empty()));
        node_ihs.clear();
        node_ohs.clear();
        let outer_len = match read_array_len(src) {
            Some(v) => v,
            None => return Err(DagError::ReadError),
        };
        if outer_len != 3 {
            return Err(DagError::ReadError);
        }
        let version = match read_u64(src) {
            Some(v) => v,
            None => return Err(DagError::ReadError),
        };
        if version != GRAPH_MSGPACK_VERSION_CURRENT {
            return Err(DagError::VersionMismatch);
        }
        let n_nodes = match read_array_len(src) {
            Some(v) => v,
            None => return Err(DagError::ReadError),
        };
        let ghost p = unread(*src);
        if !self.read_nodes(src, n_nodes as usize, node_ihs, node_ohs) {
            return Err(DagError::ReadError);
        }
        let ghost nodes = nodes_read(p, n_nodes as nat).unwrap().0;
        let ghost s3 = unread(*src);
        let n_links = match read_array_len(src) {
            Some(v) => v,
            None => return Err(DagError::ReadError),
        };
        let r = self.read_links(src, n_links as usize, node_ihs, node_ohs, Ghost(g0), Ghost(nodes));
        proof {
            assert(layout_read(unread(*old(src))) == links_part_read(nodes, s3));
        }
        r
    }
}

/// What `write_to_msgpack` writes for a graph without deleted elements
/// reads back as the same nodes and links; every link fits the nodes and no
/// link ends at the pin of a later one.
pub proof fn law_graph_bytes_read_back(g: Graph, rest: Seq<u8>)
    requires
        g.wf(),
        !g.has_deleted(),
        g.counts_fit(),
    ensures
        layout_read(layout_bytes(g.layout_nodes(), g.layout_links()) + rest) == Ok::<
            (Seq<(u32, u32)>, Seq<(u32, u32, u32, u32)>, Seq<u8>),
            DagError,
        >((g.layout_nodes(), g.layout_links(), rest)),
        links_fit(g.layout_nodes(), g.layout_links()),
        forall|k: int| 0 <= k < g.layout_links().len() ==> !superseded(g.layout_links(), k),
{
    g.lemma_pins();
    let nodes = g.layout_nodes();
    let links = g.layout_links();
    law_layout_read_inverts_bytes(nodes, links, rest);
    assert forall|k: int| 0 <= k < links.len() implies link_fits(nodes, #[trigger] links[k]) by {
        let o = g.link_seq()[k].start.idx as int;
        let i = g.link_seq()[k].end.idx as int;
        let no = g.output_seq()[o].node.idx as int;
        let ni = g.input_seq()[i].node.idx as int;
        assert(g.output_pins(no).len() <= u32::MAX);
        assert(g.input_pins(ni).len() <= u32::MAX);
        assert(nodes[no] == g.node_arity(no));
        assert(nodes[ni] == g.node_arity(ni));
    }
    assert forall|k: int| 0 <= k < links.len() implies !superseded(links, k) by {
        if superseded(links, k) {
            let j = choose|j: int| k < j < links.len() && (#[trigger] links[j]).2 == links[k].2 && links[j].3 == links[k].3;
            let ik = g.link_seq()[k].end.idx as int;
            let ij = g.link_seq()[j].end.idx as int;
            let nk = g.input_seq()[ik].node.idx as int;
            let nj = g.input_seq()[ij].node.idx as int;
            assert(g.input_pins(nk).len() <= u32::MAX);
            assert(g.input_pins(nj).len() <= u32::MAX);
            assert(nk == nj);
            assert(g.input_place(ik) == g.input_place(ij));
            assert(ik == ij);
            assert(!g.link_seq()[k].deleted);
            assert(!g.link_seq()[j].deleted);
            assert(g.input_seq()[ik].link == Some(LH { idx: k as usize }));
            assert(g.input_seq()[ij].link == Some(LH { idx: j as usize }));
        }
    }
}

/// The node arities read into an empty graph are those of the entries.
proof fn lemma_rebuilt_nodes(h: Graph, e: Graph, nodes: Seq<(u32, u32)>, links: Seq<(u32, u32, u32, u32)>)
    requires
        e.node_seq().len() == 0,
        h.read_into(e, nodes, links),
    ensures
        h.layout_nodes() == nodes,
{
    assert forall|n: int| 0 <= n < nodes.len() implies #[trigger] h.layout_nodes()[n] == nodes[n] by {
        assert(h.input_pins(0 + n).len() == nodes[n].0);
        assert(h.output_pins(0 + n).len() == nodes[n].1);
    }
    assert(h.layout_nodes() =~= nodes);
}

/// The links read into an empty graph join the pins their entries name.
proof fn lemma_rebuilt_links(h: Graph, e: Graph, nodes: Seq<(u32, u32)>, links: Seq<(u32, u32, u32, u32)>)
    requires
        h.wf(),
        e.node_seq().len() == 0,
        e.link_seq().len() == 0,
        h.read_into(e, nodes, links),
        links_fit(nodes, links),
    ensures
        h.layout_links() == links,
{
    h.lemma_pins();
    assert forall|k: int| 0 <= k < links.len() implies #[trigger] h.layout_links()[k] == links[k] by {
        let f = links[k];
        assert(link_fits(nodes, f));
        assert(h.link_seq()[0 + k].start.idx == h.output_pins(0 + f.0)[f.1 as int]);
        assert(h.link_seq()[0 + k].end.idx == h.input_pins(0 + f.2)[f.3 as int]);
        assert(h.output_pins(f.0 as int).len() == nodes[f.0 as int].1);
        assert(h.input_pins(f.2 as int).len() == nodes[f.2 as int].0);
    }
    assert(h.layout_links() =~= links);
}

/// Entries of which none is superseded are read into an empty graph
/// without deleted elements.
proof fn lemma_rebuilt_live(h: Graph, e: Graph, nodes: Seq<(u32, u32)>, links: Seq<(u32, u32, u32, u32)>)
    requires
        h.wf(),
        e.link_seq().len() == 0,
        h.read_into(e, nodes, links),
        forall|k: int| 0 <= k < links.len() ==> !superseded(links, k),
    ensures
        !h.has_deleted(),
{
    h.lemma_pins();
    assert forall|k: int| 0 <= k < h.link_seq().len() implies !(#[trigger] h.link_seq()[k]).deleted by {
        assert(h.link_seq()[0 + k].deleted == superseded(links, k));
    }
}

/// Reading the layout of a graph into an empty graph rebuilds it: the same
/// nodes with the same numbers of pins, the same links between the same
/// pins in the same order, and no deleted element.
pub proof fn law_read_rebuilds_layout(g: Graph, e: Graph, h: Graph)
    requires
        g.wf(),
        !g.has_deleted(),
        g.counts_fit(),
        e.wf(),
        e.node_seq().len() == 0,
        e.link_seq().len() == 0,
        h.wf(),
        h.read_into(e, g.layout_nodes(), g.layout_links()),
    ensures
        h.layout_nodes() == g.layout_nodes(),
        h.layout_links() == g.layout_links(),
        !h.has_deleted(),
{
    law_graph_bytes_read_back(g, Seq::empty());
    lemma_rebuilt_nodes(h, e, g.layout_nodes(), g.layout_links());
    lemma_rebuilt_links(h, e, g.layout_nodes(), g.layout_links());
    lemma_rebuilt_live(h, e, g.layout_nodes(), g.layout_links());
}

/// A well-formed graph whose links are all live, as `garbage_collection`
/// leaves it, holds no deleted element, so `write_to_msgpack` accepts it.
pub proof fn law_collected_graph_is_writable(g: Graph)
    requires
        g.wf(),
        forall|l: int| 0 <= l < g.link_seq().len() ==> !(#[trigger] g.link_seq()[l]).deleted,
    ensures
        !g.has_deleted(),
{
    g.lemma_pins();
}

} // verus!
