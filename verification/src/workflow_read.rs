//! Reading the workflow file written by `WorkflowLayout::write_to_msgpack`.
use vstd::prelude::*;

use rmp::decode::{Bytes, RmpRead};
use vstd::utf8::{decode_utf8, encode_utf8, encode_utf8_decode_utf8, valid_utf8};

use crate::error::DagError;
use crate::msgpack::{array_len_read, be_value, read_array_len, read_u32, read_u64, reader, u32_read, u64_read, unread};
use crate::workflow_io::NodeLayout;
use crate::nested::NestedVec;
use crate::graph::{Graph, IH, NH, OH};
use crate::graph_io::{layout_read, links_fit};
use crate::workflow_io::WORKFLOW_MSGPACK_VERSION_CURRENT;

verus! {

/// The map length at the front of `s` and the bytes its header takes.
pub open spec fn map_len_read(s: Seq<u8>) -> Option<(u32, nat)> {
    if s.len() == 0 {
        None
    } else if 0x80 <= s[0] <= 0x8f {
        Some(((s[0] - 0x80) as u32, 1))
    } else if s[0] == 0xde && s.len() >= 3 {
        Some((be_value(s.subrange(1, 3)) as u32, 3))
    } else if s[0] == 0xdf && s.len() >= 5 {
        Some((be_value(s.subrange(1, 5)) as u32, 5))
    } else {
        None
    }
}

/// The string length at the front of `s` and the bytes its header takes.
pub open spec fn str_len_read(s: Seq<u8>) -> Option<(u32, nat)> {
    if s.len() == 0 {
        None
    } else if 0xa0 <= s[0] <= 0xbf {
        Some(((s[0] - 0xa0) as u32, 1))
    } else if s[0] == 0xd9 && s.len() >= 2 {
        Some((s[1] as u32, 2))
    } else if s[0] == 0xda && s.len() >= 3 {
        Some((be_value(s.subrange(1, 3)) as u32, 3))
    } else if s[0] == 0xdb && s.len() >= 5 {
        Some((be_value(s.subrange(1, 5)) as u32, 5))
    } else {
        None
    }
}

/// The binary length at the front of `s` and the bytes its header takes.
pub open spec fn bin_len_read(s: Seq<u8>) -> Option<(u32, nat)> {
    if s.len() == 0 {
        None
    } else if s[0] == 0xc4 && s.len() >= 2 {
        Some((s[1] as u32, 2))
    } else if s[0] == 0xc5 && s.len() >= 3 {
        Some((be_value(s.subrange(1, 3)) as u32, 3))
    } else if s[0] == 0xc6 && s.len() >= 5 {
        Some((be_value(s.subrange(1, 5)) as u32, 5))
    } else {
        None
    }
}

/// The string at the front of `s` and the bytes it takes: a string header,
/// then that many bytes of valid UTF-8.
pub open spec fn str_read(s: Seq<u8>) -> Option<(Seq<char>, nat)> {
    match str_len_read(s) {
        Some((n, h)) => if h + n <= s.len() && valid_utf8(s.subrange(h as int, h + n)) {
            Some((decode_utf8(s.subrange(h as int, h + n)), (h + n) as nat))
        } else {
            None
        },
        None => None,
    }
}

/// The binary data at the front of `s` and the bytes it takes.
pub open spec fn bin_read(s: Seq<u8>) -> Option<(Seq<u8>, nat)> {
    match bin_len_read(s) {
        Some((n, h)) => if h + n <= s.len() {
            Some((s.subrange(h as int, h + n), (h + n) as nat))
        } else {
            None
        },
        None => None,
    }
}

/// `rmp::decode::read_map_len` from `Bytes`: reads a map header and
/// consumes it; `None` when the bytes left do not start with one, and then
/// nothing is said of what was consumed.
#[verifier::external_body]
fn read_map_len(src: &mut Bytes<'_>) -> (r: Option<u32>)
    ensures
        match map_len_read(unread(*old(src))) {
            Some((v, n)) => r == Some(v) && unread(*final(src)) == unread(*old(src)).skip(n as int),
            None => r is None,
        },
{
    match rmp::decode::read_map_len(src) {
        Ok(v) => Some(v),
        Err(_) => None,
    }
}

/// `rmp::decode::read_str_len` from `Bytes`: reads a string header and
/// consumes it; `None` when the bytes left do not start with one.
#[verifier::external_body]
fn read_str_len(src: &mut Bytes<'_>) -> (r: Option<u32>)
    ensures
        match str_len_read(unread(*old(src))) {
            Some((v, n)) => r == Some(v) && unread(*final(src)) == unread(*old(src)).skip(n as int),
            None => r is None,
        },
{
    match rmp::decode::read_str_len(src) {
        Ok(v) => Some(v),
        Err(_) => None,
    }
}

/// `rmp::decode::read_bin_len` from `Bytes`: reads a binary header and
/// consumes it; `None` when the bytes left do not start with one.
#[verifier::external_body]
fn read_bin_len(src: &mut Bytes<'_>) -> (r: Option<u32>)
    ensures
        match bin_len_read(unread(*old(src))) {
            Some((v, n)) => r == Some(v) && unread(*final(src)) == unread(*old(src)).skip(n as int),
            None => r is None,
        },
{
    match rmp::decode::read_bin_len(src) {
        Ok(v) => Some(v),
        Err(_) => None,
    }
}

/// `Bytes::remaining_slice`: the number of bytes left to read.
#[verifier::external_body]
fn bytes_left(src: &Bytes<'_>) -> (r: usize)
    ensures
        r == unread(*src).len(),
{
    src.remaining_slice().len()
}

/// `RmpRead::read_exact_buf` on `Bytes`: takes the next `n` bytes, which
/// are there, and consumes them.
#[verifier::external_body]
fn read_bytes(src: &mut Bytes<'_>, n: usize) -> (r: Option<Vec<u8>>)
    requires
        n <= unread(*old(src)).len(),
    ensures
        r matches Some(v) && v@ == unread(*old(src)).take(n as int),
        unread(*final(src)) == unread(*old(src)).skip(n as int),
{
    let mut buf = vec![0u8; n];
    match src.read_exact_buf(&mut buf) {
        Ok(()) => Some(buf),
        Err(_) => None,
    }
}

/// `String::from_utf8`: the string whose UTF-8 bytes are `bytes`; `None`
/// when they are not valid UTF-8.
#[verifier::external_body]
fn string_from_utf8(bytes: Vec<u8>) -> (r: Option<String>)
    ensures
        r is Some <==> valid_utf8(bytes@),
        r matches Some(s) ==> s@ == decode_utf8(bytes@),
{
    String::from_utf8(bytes).ok()
}

/// Reads a string: `ReadError` when the bytes left do not start with one.
fn read_string(src: &mut Bytes<'_>) -> (r: Result<String, DagError>)
    ensures
        match str_read(unread(*old(src))) {
            Some((t, n)) => r matches Ok(s) && s@ == t && unread(*final(src)) == unread(*old(src)).skip(n as int),
            None => r == Err::<String, DagError>(DagError::ReadError),
        },
{
    let ghost s0 = unread(*src);
    let n = match read_str_len(src) {
        Some(n) => n,
        None => return Err(DagError::ReadError),
    };
    let ghost s1 = unread(*src);
    let left = bytes_left(src);
    if n as usize > left {
        return Err(DagError::ReadError);
    }
    let bytes = match read_bytes(src, n as usize) {
        Some(b) => b,
        None => return Err(DagError::ReadError),
    };
    let ghost h = str_len_read(s0).unwrap().1;
    assert(bytes@ =~= s0.subrange(h as int, h + n));
    assert(unread(*src) =~= s0.skip(h + n));
    match string_from_utf8(bytes) {
        Some(s) => Ok(s),
        None => Err(DagError::ReadError),
    }
}

/// Reads binary data: `ReadError` when the bytes left do not start with it.
fn read_bin(src: &mut Bytes<'_>) -> (r: Result<Vec<u8>, DagError>)
    ensures
        match bin_read(unread(*old(src))) {
            Some((t, n)) => r matches Ok(v) && v@ == t && unread(*final(src)) == unread(*old(src)).skip(n as int),
            None => r == Err::<Vec<u8>, DagError>(DagError::ReadError),
        },
{
    let ghost s0 = unread(*src);
    let n = match read_bin_len(src) {
        Some(n) => n,
        None => return Err(DagError::ReadError),
    };
    let left = bytes_left(src);
    if n as usize > left {
        return Err(DagError::ReadError);
    }
    let bytes = match read_bytes(src, n as usize) {
        Some(b) => b,
        None => return Err(DagError::ReadError),
    };
    let ghost h = bin_len_read(s0).unwrap().1;
    assert(bytes@ =~= s0.subrange(h as int, h + n));
    assert(unread(*src) =~= s0.skip(h + n));
    Ok(bytes)
}

/// What the file says of one node, as plain values.
pub enum NodeView {
    Constant(u64, Seq<u8>),
    Function(Seq<char>),
    NestedCall(Seq<char>),
    Inspect(Seq<char>),
}

/// The plain values a node entry holds.
pub open spec fn node_view(n: NodeLayout) -> NodeView {
    match n {
        NodeLayout::Constant { type_id, data } => NodeView::Constant(type_id, data@),
        NodeLayout::Function { name } => NodeView::Function(name@),
        NodeLayout::NestedCall { workflow_name } => NodeView::NestedCall(workflow_name@),
        NodeLayout::Inspect { label } => NodeView::Inspect(label@),
    }
}

/// A `u32` item, as a result.
pub open spec fn u32_res(s: Seq<u8>) -> Result<(u32, Seq<u8>), DagError> {
    match u32_read(s) {
        Some((v, n)) => Ok((v, s.skip(n as int))),
        None => Err(DagError::ReadError),
    }
}

/// A string item, as a result.
pub open spec fn str_res(s: Seq<u8>) -> Result<(Seq<char>, Seq<u8>), DagError> {
    match str_read(s) {
        Some((v, n)) => Ok((v, s.skip(n as int))),
        None => Err(DagError::ReadError),
    }
}

/// An array header that must announce `len` elements.
pub open spec fn header_res(s: Seq<u8>, len: u32) -> Result<Seq<u8>, DagError> {
    match array_len_read(s) {
        Some((v, n)) => if v == len {
            Ok(s.skip(n as int))
        } else {
            Err(DagError::ReadError)
        },
        None => Err(DagError::ReadError),
    }
}

/// One node entry: `[0, type_id, bytes]`, `[1, name]`, `[2, workflow_name]`
/// or `[3, label]`; the tag is read before the length is checked.
pub open spec fn node_info_read(s: Seq<u8>) -> Result<(NodeView, Seq<u8>), DagError> {
    match array_len_read(s) {
        None => Err(DagError::ReadError),
        Some((len, a)) => match u32_res(s.skip(a as int)) {
            Err(e) => Err(e),
            Ok((tag, t)) => if tag == 0 {
                if len != 3 {
                    Err(DagError::ReadError)
                } else {
                    match u64_read(t) {
                        None => Err(DagError::ReadError),
                        Some((ty, b)) => match bin_read(t.skip(b as int)) {
                            None => Err(DagError::ReadError),
                            Some((d, c)) => Ok((NodeView::Constant(ty, d), t.skip(b as int).skip(c as int))),
                        },
                    }
                }
            } else if 1 <= tag <= 3 {
                if len != 2 {
                    Err(DagError::ReadError)
                } else {
                    match str_res(t) {
                        Err(e) => Err(e),
                        Ok((x, u)) => Ok((
                            if tag == 1 {
                                NodeView::Function(x)
                            } else if tag == 2 {
                                NodeView::NestedCall(x)
                            } else {
                                NodeView::Inspect(x)
                            },
                            u,
                        )),
                    }
                }
            } else {
                Err(DagError::ReadError)
            },
        },
    }
}

/// `n` node entries.
pub open spec fn infos_read(s: Seq<u8>, n: nat) -> Result<(Seq<NodeView>, Seq<u8>), DagError>
    decreases n,
{
    if n == 0 {
        Ok((Seq::empty(), s))
    } else {
        match node_info_read(s) {
            Err(e) => Err(e),
            Ok((v, t)) => match infos_read(t, (n - 1) as nat) {
                Err(e) => Err(e),
                Ok((vs, u)) => Ok((seq![v] + vs, u)),
            },
        }
    }
}

/// The entries read before, followed by those of `r`.
pub open spec fn prepend<T>(done: Seq<T>, r: Result<(Seq<T>, Seq<u8>), DagError>) -> Result<(Seq<T>, Seq<u8>), DagError> {
    match r {
        Ok((vs, u)) => Ok((done + vs, u)),
        Err(e) => Err(e),
    }
}

/// Reads a `u32` item: `ReadError` when there is none.
fn read_u32_item(src: &mut Bytes<'_>) -> (r: Result<u32, DagError>)
    ensures
        match u32_res(unread(*old(src))) {
            Ok((v, t)) => r == Ok::<u32, DagError>(v) && unread(*final(src)) == t,
            Err(e) => r == Err::<u32, DagError>(e),
        },
{
    match read_u32(src) {
        Some(v) => Ok(v),
        None => Err(DagError::ReadError),
    }
}

/// Reads a string item: `ReadError` when there is none.
fn read_str_item(src: &mut Bytes<'_>) -> (r: Result<String, DagError>)
    ensures
        match str_res(unread(*old(src))) {
            Ok((v, t)) => r matches Ok(x) && x@ == v && unread(*final(src)) == t,
            Err(e) => r == Err::<String, DagError>(e),
        },
{
    read_string(src)
}

/// Reads an array header that must announce `len` elements.
fn read_header(src: &mut Bytes<'_>, len: u32) -> (r: Result<(), DagError>)
    ensures
        match header_res(unread(*old(src)), len) {
            Ok(t) => r is Ok && unread(*final(src)) == t,
            Err(e) => r == Err::<(), DagError>(e),
        },
{
    match read_array_len(src) {
        Some(v) => if v == len {
            Ok(())
        } else {
            Err(DagError::ReadError)
        },
        None => Err(DagError::ReadError),
    }
}

/// Reads one node entry.
fn read_node_info(src: &mut Bytes<'_>) -> (r: Result<NodeLayout, DagError>)
    ensures
        match node_info_read(unread(*old(src))) {
            Ok((v, t)) => r matches Ok(x) && node_view(x) == v && unread(*final(src)) == t,
            Err(e) => r matches Err(x) && x == e,
        },
{
    let len = match read_array_len(src) {
        Some(v) => v,
        None => return Err(DagError::ReadError),
    };
    let tag = read_u32_item(src)?;
    if tag == 0 {
        if len != 3 {
            return Err(DagError::ReadError);
        }
        let type_id = match read_u64(src) {
            Some(v) => v,
            None => return Err(DagError::ReadError),
        };
        let data = read_bin(src)?;
        Ok(NodeLayout::Constant { type_id, data })
    } else if 1 <= tag && tag <= 3 {
        if len != 2 {
            return Err(DagError::ReadError);
        }
        let x = read_str_item(src)?;
        if tag == 1 {
            Ok(NodeLayout::Function { name: x })
        } else if tag == 2 {
            Ok(NodeLayout::NestedCall { workflow_name: x })
        } else {
            Ok(NodeLayout::Inspect { label: x })
        }
    } else {
        Err(DagError::ReadError)
    }
}

/// Reads `count` node entries.
fn read_node_infos(src: &mut Bytes<'_>, count: usize) -> (r: Result<Vec<NodeLayout>, DagError>)
    ensures
        match infos_read(unread(*old(src)), count as nat) {
            Ok((vs, t)) => r matches Ok(x) && x@.map_values(|n: NodeLayout| node_view(n)) == vs && unread(*final(src)) == t,
            Err(e) => r matches Err(x) && x == e,
        },
{
    let ghost p = unread(*src);
    let mut out: Vec<NodeLayout> = Vec::new();
    let mut i: usize = 0;
    assert(prepend(Seq::<NodeView>::empty(), infos_read(p, count as nat)) == infos_read(p, count as nat)) by {
        match infos_read(p, count as nat) {
            Ok((vs, u)) => assert(Seq::<NodeView>::empty() + vs =~= vs),
            Err(e) => {},
        }
    }
    while i < count
        invariant
            0 <= i <= count,
            p == unread(*old(src)),
            infos_read(p, count as nat) == prepend(
                out@.map_values(|n: NodeLayout| node_view(n)),
                infos_read(unread(*src), (count - i) as nat),
            ),
        decreases count - i,
    {
        let ghost cur = unread(*src);
        let ghost done = out@.map_values(|n: NodeLayout| node_view(n));
        let x = match read_node_info(src) {
            Ok(x) => x,
            Err(e) => {
                assert(infos_read(cur, (count - i) as nat) == Err::<(Seq<NodeView>, Seq<u8>), DagError>(e));
                assert(infos_read(p, count as nat) == Err::<(Seq<NodeView>, Seq<u8>), DagError>(e));
                return Err(e);
            },
        };
        proof {
            let nd = done.push(node_view(x));
            assert(out@.push(x).map_values(|n: NodeLayout| node_view(n)) =~= nd);
            match infos_read(unread(*src), (count - i - 1) as nat) {
                Ok((vs, u)) => {
                    assert(nd + vs =~= done + (seq![node_view(x)] + vs));
                },
                Err(e) => {},
            }
        }
        out.push(x);
        i = i + 1;
    }
    proof {
        assert(infos_read(unread(*src), 0) == Ok::<(Seq<NodeView>, Seq<u8>), DagError>((Seq::empty(), unread(*src))));
        assert(out@.map_values(|n: NodeLayout| node_view(n)) + Seq::<NodeView>::empty() =~= out@.map_values(|n: NodeLayout| node_view(n)));
    }
    Ok(out)
}

/// An entry `[node, place, text]`.
pub open spec fn pin_entry_read(s: Seq<u8>) -> Result<((u32, u32, Seq<char>), Seq<u8>), DagError> {
    match header_res(s, 3) {
        Err(e) => Err(e),
        Ok(t) => match u32_res(t) {
            Err(e) => Err(e),
            Ok((node, u)) => match u32_res(u) {
                Err(e) => Err(e),
                Ok((place, v)) => match str_res(v) {
                    Err(e) => Err(e),
                    Ok((text, w)) => Ok(((node, place, text), w)),
                },
            },
        },
    }
}

/// Node `node` has a pin at `place`, node `k` having `lens[k]` pins.
pub open spec fn pin_ok(lens: Seq<int>, node: u32, place: u32) -> bool {
    node < lens.len() && place < lens[node as int]
}

/// `n` label entries, each naming a pin that is there.
pub open spec fn labels_read(s: Seq<u8>, n: nat, lens: Seq<int>) -> Result<
    (Seq<(u32, u32, Seq<char>)>, Seq<u8>),
    DagError,
>
    decreases n,
{
    if n == 0 {
        Ok((Seq::empty(), s))
    } else {
        match pin_entry_read(s) {
            Err(e) => Err(e),
            Ok((v, t)) => if !pin_ok(lens, v.0, v.1) {
                Err(DagError::ReadError)
            } else {
                match labels_read(t, (n - 1) as nat, lens) {
                    Err(e) => Err(e),
                    Ok((vs, u)) => Ok((seq![v] + vs, u)),
                }
            },
        }
    }
}

/// The pin counts of the lists of `v`.
pub open spec fn list_lens<T>(v: NestedVec<T>) -> Seq<int> {
    Seq::new(v.lists().len(), |k: int| v.lists()[k].len() as int)
}

/// Reads one entry `[node, place, text]`.
fn read_pin_entry(src: &mut Bytes<'_>) -> (r: Result<(u32, u32, String), DagError>)
    ensures
        match pin_entry_read(unread(*old(src))) {
            Ok((v, t)) => r matches Ok(x) && x.0 == v.0 && x.1 == v.1 && x.2@ == v.2 && unread(*final(src)) == t,
            Err(e) => r matches Err(x) && x == e,
        },
{
    read_header(src, 3)?;
    let node = read_u32_item(src)?;
    let place = read_u32_item(src)?;
    let text = read_str_item(src)?;
    Ok((node, place, text))
}

/// The pin at `place` of node `node`, if it is there.
fn pin_at<T: Copy>(pins: &NestedVec<T>, node: u32, place: u32) -> (r: Option<T>)
    requires
        pins.wf(),
    ensures
        r is Some <==> pin_ok(list_lens(*pins), node, place),
        r matches Some(h) ==> h == pins.lists()[node as int][place as int],
{
    match pins.get(node as usize) {
        Ok(list) => if (place as usize) < list.len() {
            Some(list[place as usize])
        } else {
            None
        },
        Err(_) => None,
    }
}

/// Reads `count` label entries, each naming a pin of `pins`.
fn read_labels<T: Copy>(src: &mut Bytes<'_>, count: usize, pins: &NestedVec<T>) -> (r: Result<Vec<(T, String)>, DagError>)
    requires
        pins.wf(),
    ensures
        match labels_read(unread(*old(src)), count as nat, list_lens(*pins)) {
            Ok((vs, t)) => r matches Ok(x) && x@.len() == vs.len() && unread(*final(src)) == t && forall|k: int|
                0 <= k < vs.len() ==> #[trigger] x@[k].0 == pins.lists()[vs[k].0 as int][vs[k].1 as int]
                    && x@[k].1@ == vs[k].2 && pin_ok(list_lens(*pins), vs[k].0, vs[k].1),
            Err(e) => r matches Err(x) && x == e,
        },
{
    let ghost p = unread(*src);
    let ghost lens = list_lens(*pins);
    let ghost mut done: Seq<(u32, u32, Seq<char>)> = Seq::empty();
    let mut out: Vec<(T, String)> = Vec::new();
    let mut i: usize = 0;
    assert(prepend(done, labels_read(p, count as nat, lens)) == labels_read(p, count as nat, lens)) by {
        match labels_read(p, count as nat, lens) {
            Ok((vs, u)) => assert(done + vs =~= vs),
            Err(e) => {},
        }
    }
    while i < count
        invariant
            0 <= i <= count,
            pins.wf(),
            lens == list_lens(*pins),
            p == unread(*old(src)),
            labels_read(p, count as nat, lens) == prepend(done, labels_read(unread(*src), (count - i) as nat, lens)),
            out@.len() == done.len(),
            forall|k: int|
                0 <= k < done.len() ==> #[trigger] out@[k].0 == pins.lists()[done[k].0 as int][done[k].1 as int]
                    && out@[k].1@ == done[k].2 && pin_ok(lens, done[k].0, done[k].1),
        decreases count - i,
    {
        let ghost cur = unread(*src);
        let e = match read_pin_entry(src) {
            Ok(e) => e,
            Err(x) => {
                assert(labels_read(cur, (count - i) as nat, lens) == Err::<(Seq<(u32, u32, Seq<char>)>, Seq<u8>), DagError>(x));
                assert(labels_read(p, count as nat, lens) == Err::<(Seq<(u32, u32, Seq<char>)>, Seq<u8>), DagError>(x));
                return Err(x);
            },
        };
        let h = match pin_at(pins, e.0, e.1) {
            Some(h) => h,
            None => {
                assert(labels_read(cur, (count - i) as nat, lens) == Err::<(Seq<(u32, u32, Seq<char>)>, Seq<u8>), DagError>(DagError::ReadError));
                assert(labels_read(p, count as nat, lens) == Err::<(Seq<(u32, u32, Seq<char>)>, Seq<u8>), DagError>(DagError::ReadError));
                return Err(DagError::ReadError);
            },
        };
        let ghost v = (e.0, e.1, e.2@);
        proof {
            let nd = done.push(v);
            match labels_read(unread(*src), (count - i - 1) as nat, lens) {
                Ok((vs, u)) => {
                    assert(nd + vs =~= done + (seq![v] + vs));
                },
                Err(x) => {},
            }
        }
        out.push((h, e.2));
        proof {
            done = done.push(v);
        }
        i = i + 1;
    }
    proof {
        assert(labels_read(unread(*src), 0, lens) == Ok::<(Seq<(u32, u32, Seq<char>)>, Seq<u8>), DagError>((Seq::empty(), unread(*src))));
        assert(done + Seq::<(u32, u32, Seq<char>)>::empty() =~= done);
    }
    Ok(out)
}

/// `n` comment entries `node, text`, each naming a node below `n_nodes`.
pub open spec fn comments_read(s: Seq<u8>, n: nat, n_nodes: int) -> Result<(Seq<(u32, Seq<char>)>, Seq<u8>), DagError>
    decreases n,
{
    if n == 0 {
        Ok((Seq::empty(), s))
    } else {
        match u32_res(s) {
            Err(e) => Err(e),
            Ok((node, t)) => if node >= n_nodes {
                Err(DagError::ReadError)
            } else {
                match str_res(t) {
                    Err(e) => Err(e),
                    Ok((text, u)) => match comments_read(u, (n - 1) as nat, n_nodes) {
                        Err(e) => Err(e),
                        Ok((vs, w)) => Ok((seq![(node, text)] + vs, w)),
                    },
                }
            },
        }
    }
}

/// `n` workflow output entries `[node, place, name]`, each naming an output
/// pin that is there and that no earlier entry (nor `seen`) names.
pub open spec fn outputs_read(s: Seq<u8>, n: nat, lens: Seq<int>, seen: Seq<(u32, u32)>) -> Result<
    (Seq<(u32, u32, Seq<char>)>, Seq<u8>),
    DagError,
>
    decreases n,
{
    if n == 0 {
        Ok((Seq::empty(), s))
    } else {
        match pin_entry_read(s) {
            Err(e) => Err(e),
            Ok((v, t)) => if !pin_ok(lens, v.0, v.1) {
                Err(DagError::ReadError)
            } else if seen.contains((v.0, v.1)) {
                Err(DagError::InvalidOutputs)
            } else {
                match outputs_read(t, (n - 1) as nat, lens, seen.push((v.0, v.1))) {
                    Err(e) => Err(e),
                    Ok((vs, u)) => Ok((seq![v] + vs, u)),
                }
            },
        }
    }
}

/// `n` strings.
pub open spec fn strings_read(s: Seq<u8>, n: nat) -> Result<(Seq<Seq<char>>, Seq<u8>), DagError>
    decreases n,
{
    if n == 0 {
        Ok((Seq::empty(), s))
    } else {
        match str_res(s) {
            Err(e) => Err(e),
            Ok((v, t)) => match strings_read(t, (n - 1) as nat) {
                Err(e) => Err(e),
                Ok((vs, u)) => Ok((seq![v] + vs, u)),
            },
        }
    }
}

/// An entry `[node, place, input]`.
pub open spec fn index_entry_read(s: Seq<u8>) -> Result<((u32, u32, u32), Seq<u8>), DagError> {
    match header_res(s, 3) {
        Err(e) => Err(e),
        Ok(t) => match u32_res(t) {
            Err(e) => Err(e),
            Ok((node, u)) => match u32_res(u) {
                Err(e) => Err(e),
                Ok((place, v)) => match u32_res(v) {
                    Err(e) => Err(e),
                    Ok((wi, w)) => Ok(((node, place, wi), w)),
                },
            },
        },
    }
}

/// `n` workflow input entries, each naming one of the `n_names` workflow
/// inputs (else `InvalidInputs`) and then an input pin that is there.
pub open spec fn index_read(s: Seq<u8>, n: nat, lens: Seq<int>, n_names: int) -> Result<
    (Seq<(u32, u32, u32)>, Seq<u8>),
    DagError,
>
    decreases n,
{
    if n == 0 {
        Ok((Seq::empty(), s))
    } else {
        match index_entry_read(s) {
            Err(e) => Err(e),
            Ok((v, t)) => if v.2 >= n_names {
                Err(DagError::InvalidInputs)
            } else if !pin_ok(lens, v.0, v.1) {
                Err(DagError::ReadError)
            } else {
                match index_read(t, (n - 1) as nat, lens, n_names) {
                    Err(e) => Err(e),
                    Ok((vs, u)) => Ok((seq![v] + vs, u)),
                }
            },
        }
    }
}

/// Reads `count` comment entries, each naming a node below `n_nodes`.
fn read_comments(src: &mut Bytes<'_>, count: usize, n_nodes: usize) -> (r: Result<Vec<(NH, String)>, DagError>)
    ensures
        match comments_read(unread(*old(src)), count as nat, n_nodes as int) {
            Ok((vs, t)) => r matches Ok(x) && x@.len() == vs.len() && unread(*final(src)) == t && forall|k: int|
                0 <= k < vs.len() ==> #[trigger] x@[k].0.idx == vs[k].0 && x@[k].1@ == vs[k].1,
            Err(e) => r matches Err(x) && x == e,
        },
        r matches Ok(x) ==> forall|k: int| 0 <= k < x@.len() ==> (#[trigger] x@[k]).0.idx < n_nodes,
{
    let ghost p = unread(*src);
    let ghost mut done: Seq<(u32, Seq<char>)> = Seq::empty();
    let mut out: Vec<(NH, String)> = Vec::new();
    let mut i: usize = 0;
    assert(prepend(done, comments_read(p, count as nat, n_nodes as int)) == comments_read(p, count as nat, n_nodes as int)) by {
        match comments_read(p, count as nat, n_nodes as int) {
            Ok((vs, u)) => assert(done + vs =~= vs),
            Err(e) => {},
        }
    }
    while i < count
        invariant
            0 <= i <= count,
            p == unread(*old(src)),
            comments_read(p, count as nat, n_nodes as int) == prepend(done, comments_read(unread(*src), (count - i) as nat, n_nodes as int)),
            out@.len() == done.len(),
            forall|k: int| 0 <= k < done.len() ==> #[trigger] out@[k].0.idx == done[k].0 && out@[k].1@ == done[k].1,
            forall|k: int| 0 <= k < out@.len() ==> (#[trigger] out@[k]).0.idx < n_nodes,
        decreases count - i,
    {
        let ghost cur = unread(*src);
        let node = match read_u32_item(src) {
            Ok(v) => v,
            Err(x) => {
                assert(comments_read(p, count as nat, n_nodes as int) == Err::<(Seq<(u32, Seq<char>)>, Seq<u8>), DagError>(x));
                return Err(x);
            },
        };
        if node as usize >= n_nodes {
            assert(comments_read(p, count as nat, n_nodes as int) == Err::<(Seq<(u32, Seq<char>)>, Seq<u8>), DagError>(DagError::ReadError));
            return Err(DagError::ReadError);
        }
        let text = match read_str_item(src) {
            Ok(v) => v,
            Err(x) => {
                assert(comments_read(p, count as nat, n_nodes as int) == Err::<(Seq<(u32, Seq<char>)>, Seq<u8>), DagError>(x));
                return Err(x);
            },
        };
        let ghost v = (node, text@);
        proof {
            let nd = done.push(v);
            match comments_read(unread(*src), (count - i - 1) as nat, n_nodes as int) {
                Ok((vs, u)) => {
                    assert(nd + vs =~= done + (seq![v] + vs));
                },
                Err(x) => {},
            }
        }
        out.push((NH { idx: node as usize }, text));
        proof {
            done = done.push(v);
        }
        i = i + 1;
    }
    proof {
        assert(done + Seq::<(u32, Seq<char>)>::empty() =~= done);
    }
    Ok(out)
}

/// Whether `seen` holds `x`.
fn seen_contains(seen: &Vec<(u32, u32)>, x: (u32, u32)) -> (r: bool)
    ensures
        r == seen@.contains(x),
{
    let mut k: usize = 0;
    while k < seen.len()
        invariant
            0 <= k <= seen@.len(),
            forall|j: int| 0 <= j < k ==> seen@[j] != x,
        decreases seen@.len() - k,
    {
        if seen[k].0 == x.0 && seen[k].1 == x.1 {
            assert(seen@[k as int] == x);
            return true;
        }
        k = k + 1;
    }
    false
}

/// Reads `count` workflow output entries.
fn read_outputs<T: Copy>(src: &mut Bytes<'_>, count: usize, pins: &NestedVec<T>) -> (r: Result<Vec<(T, String)>, DagError>)
    requires
        pins.wf(),
    ensures
        match outputs_read(unread(*old(src)), count as nat, list_lens(*pins), Seq::empty()) {
            Ok((vs, t)) => r matches Ok(x) && x@.len() == vs.len() && unread(*final(src)) == t && forall|k: int|
                0 <= k < vs.len() ==> #[trigger] x@[k].0 == pins.lists()[vs[k].0 as int][vs[k].1 as int]
                    && x@[k].1@ == vs[k].2 && pin_ok(list_lens(*pins), vs[k].0, vs[k].1),
            Err(e) => r matches Err(x) && x == e,
        },
{
    let ghost p = unread(*src);
    let ghost lens = list_lens(*pins);
    let ghost mut done: Seq<(u32, u32, Seq<char>)> = Seq::empty();
    let mut seen: Vec<(u32, u32)> = Vec::new();
    let mut out: Vec<(T, String)> = Vec::new();
    let mut i: usize = 0;
    assert(prepend(done, outputs_read(p, count as nat, lens, seen@)) == outputs_read(p, count as nat, lens, Seq::empty())) by {
        assert(seen@ =~= Seq::<(u32, u32)>::empty());
        match outputs_read(p, count as nat, lens, seen@) {
            Ok((vs, u)) => assert(done + vs =~= vs),
            Err(e) => {},
        }
    }
    while i < count
        invariant
            0 <= i <= count,
            pins.wf(),
            lens == list_lens(*pins),
            p == unread(*old(src)),
            outputs_read(p, count as nat, lens, Seq::empty()) == prepend(
                done,
                outputs_read(unread(*src), (count - i) as nat, lens, seen@),
            ),
            out@.len() == done.len(),
            forall|k: int|
                0 <= k < done.len() ==> #[trigger] out@[k].0 == pins.lists()[done[k].0 as int][done[k].1 as int]
                    && out@[k].1@ == done[k].2 && pin_ok(lens, done[k].0, done[k].1),
        decreases count - i,
    {
        let ghost cur = unread(*src);
        let e = match read_pin_entry(src) {
            Ok(e) => e,
            Err(x) => {
                assert(outputs_read(cur, (count - i) as nat, lens, seen@) == Err::<(Seq<(u32, u32, Seq<char>)>, Seq<u8>), DagError>(x));
                return Err(x);
            },
        };
        let h = match pin_at(pins, e.0, e.1) {
            Some(h) => h,
            None => {
                assert(outputs_read(cur, (count - i) as nat, lens, seen@) == Err::<(Seq<(u32, u32, Seq<char>)>, Seq<u8>), DagError>(DagError::ReadError));
                return Err(DagError::ReadError);
            },
        };
        if seen_contains(&seen, (e.0, e.1)) {
            assert(outputs_read(cur, (count - i) as nat, lens, seen@) == Err::<(Seq<(u32, u32, Seq<char>)>, Seq<u8>), DagError>(DagError::InvalidOutputs));
            return Err(DagError::InvalidOutputs);
        }
        let ghost v = (e.0, e.1, e.2@);
        let ghost seen0 = seen@;
        seen.push((e.0, e.1));
        proof {
            let nd = done.push(v);
            match outputs_read(unread(*src), (count - i - 1) as nat, lens, seen@) {
                Ok((vs, u)) => {
                    assert(nd + vs =~= done + (seq![v] + vs));
                },
                Err(x) => {},
            }
        }
        out.push((h, e.2));
        proof {
            done = done.push(v);
        }
        i = i + 1;
    }
    proof {
        assert(done + Seq::<(u32, u32, Seq<char>)>::empty() =~= done);
    }
    Ok(out)
}

/// Reads `count` strings.
fn read_strings(src: &mut Bytes<'_>, count: usize) -> (r: Result<Vec<String>, DagError>)
    ensures
        match strings_read(unread(*old(src)), count as nat) {
            Ok((vs, t)) => r matches Ok(x) && x@.len() == vs.len() && unread(*final(src)) == t && forall|k: int|
                0 <= k < vs.len() ==> (#[trigger] x@[k])@ == vs[k],
            Err(e) => r matches Err(x) && x == e,
        },
{
    let ghost p = unread(*src);
    let ghost mut done: Seq<Seq<char>> = Seq::empty();
    let mut out: Vec<String> = Vec::new();
    let mut i: usize = 0;
    assert(prepend(done, strings_read(p, count as nat)) == strings_read(p, count as nat)) by {
        match strings_read(p, count as nat) {
            Ok((vs, u)) => assert(done + vs =~= vs),
            Err(e) => {},
        }
    }
    while i < count
        invariant
            0 <= i <= count,
            p == unread(*old(src)),
            strings_read(p, count as nat) == prepend(done, strings_read(unread(*src), (count - i) as nat)),
            out@.len() == done.len(),
            forall|k: int| 0 <= k < done.len() ==> (#[trigger] out@[k])@ == done[k],
        decreases count - i,
    {
        let ghost cur = unread(*src);
        let text = match read_str_item(src) {
            Ok(v) => v,
            Err(x) => {
                assert(strings_read(cur, (count - i) as nat) == Err::<(Seq<Seq<char>>, Seq<u8>), DagError>(x));
                return Err(x);
            },
        };
        let ghost v = text@;
        proof {
            let nd = done.push(v);
            match strings_read(unread(*src), (count - i - 1) as nat) {
                Ok((vs, u)) => {
                    assert(nd + vs =~= done + (seq![v] + vs));
                },
                Err(x) => {},
            }
        }
        out.push(text);
        proof {
            done = done.push(v);
        }
        i = i + 1;
    }
    proof {
        assert(done + Seq::<Seq<char>>::empty() =~= done);
    }
    Ok(out)
}

/// Reads one entry `[node, place, input]`.
fn read_index_entry(src: &mut Bytes<'_>) -> (r: Result<(u32, u32, u32), DagError>)
    ensures
        match index_entry_read(unread(*old(src))) {
            Ok((v, t)) => r == Ok::<(u32, u32, u32), DagError>(v) && unread(*final(src)) == t,
            Err(e) => r == Err::<(u32, u32, u32), DagError>(e),
        },
{
    read_header(src, 3)?;
    let node = read_u32_item(src)?;
    let place = read_u32_item(src)?;
    let wi = read_u32_item(src)?;
    Ok((node, place, wi))
}

/// Reads `count` workflow input entries.
fn read_index<T: Copy>(src: &mut Bytes<'_>, count: usize, pins: &NestedVec<T>, n_names: usize) -> (r: Result<Vec<(T, u32)>, DagError>)
    requires
        pins.wf(),
    ensures
        match index_read(unread(*old(src)), count as nat, list_lens(*pins), n_names as int) {
            Ok((vs, t)) => r matches Ok(x) && x@.len() == vs.len() && unread(*final(src)) == t && forall|k: int|
                0 <= k < vs.len() ==> #[trigger] x@[k].0 == pins.lists()[vs[k].0 as int][vs[k].1 as int]
                    && x@[k].1 == vs[k].2 && pin_ok(list_lens(*pins), vs[k].0, vs[k].1),
            Err(e) => r matches Err(x) && x == e,
        },
{
    let ghost p = unread(*src);
    let ghost lens = list_lens(*pins);
    let ghost mut done: Seq<(u32, u32, u32)> = Seq::empty();
    let mut out: Vec<(T, u32)> = Vec::new();
    let mut i: usize = 0;
    assert(prepend(done, index_read(p, count as nat, lens, n_names as int)) == index_read(p, count as nat, lens, n_names as int)) by {
        match index_read(p, count as nat, lens, n_names as int) {
            Ok((vs, u)) => assert(done + vs =~= vs),
            Err(e) => {},
        }
    }
    while i < count
        invariant
            0 <= i <= count,
            pins.wf(),
            lens == list_lens(*pins),
            p == unread(*old(src)),
            index_read(p, count as nat, lens, n_names as int) == prepend(done, index_read(unread(*src), (count - i) as nat, lens, n_names as int)),
            out@.len() == done.len(),
            forall|k: int|
                0 <= k < done.len() ==> #[trigger] out@[k].0 == pins.lists()[done[k].0 as int][done[k].1 as int]
                    && out@[k].1 == done[k].2 && pin_ok(lens, done[k].0, done[k].1),
        decreases count - i,
    {
        let ghost cur = unread(*src);
        let e = match read_index_entry(src) {
            Ok(e) => e,
            Err(x) => {
                assert(index_read(cur, (count - i) as nat, lens, n_names as int) == Err::<(Seq<(u32, u32, u32)>, Seq<u8>), DagError>(x));
                return Err(x);
            },
        };
        if e.2 as usize >= n_names {
            assert(index_read(cur, (count - i) as nat, lens, n_names as int) == Err::<(Seq<(u32, u32, u32)>, Seq<u8>), DagError>(DagError::InvalidInputs));
            return Err(DagError::InvalidInputs);
        }
        let h = match pin_at(pins, e.0, e.1) {
            Some(h) => h,
            None => {
                assert(index_read(cur, (count - i) as nat, lens, n_names as int) == Err::<(Seq<(u32, u32, u32)>, Seq<u8>), DagError>(DagError::ReadError));
                return Err(DagError::ReadError);
            },
        };
        assert(pin_ok(lens, e.0, e.1));
        proof {
            let nd = done.push(e);
            match index_read(unread(*src), (count - i - 1) as nat, lens, n_names as int) {
                Ok((vs, u)) => {
                    assert(nd + vs =~= done + (seq![e] + vs));
                },
                Err(x) => {},
            }
        }
        out.push((h, e.2));
        proof {
            done = done.push(e);
        }
        i = i + 1;
    }
    proof {
        assert(done + Seq::<(u32, u32, u32)>::empty() =~= done);
    }
    Ok(out)
}

/// A key that must be `key`.
pub open spec fn key_res(s: Seq<u8>, key: Seq<char>) -> Result<Seq<u8>, DagError> {
    match str_res(s) {
        Err(e) => Err(e),
        Ok((k, t)) => if k == key {
            Ok(t)
        } else {
            Err(DagError::ReadError)
        },
    }
}

/// An array header, as a result.
pub open spec fn array_res(s: Seq<u8>) -> Result<(u32, Seq<u8>), DagError> {
    match array_len_read(s) {
        Some((v, n)) => Ok((v, s.skip(n as int))),
        None => Err(DagError::ReadError),
    }
}

/// A map header, as a result.
pub open spec fn map_res(s: Seq<u8>) -> Result<(u32, Seq<u8>), DagError> {
    match map_len_read(s) {
        Some((v, n)) => Ok((v, s.skip(n as int))),
        None => Err(DagError::ReadError),
    }
}

/// The input pin counts of `nodes`.
pub open spec fn input_lens(nodes: Seq<(u32, u32)>) -> Seq<int> {
    Seq::new(nodes.len(), |k: int| nodes[k].0 as int)
}

/// The output pin counts of `nodes`.
pub open spec fn output_lens(nodes: Seq<(u32, u32)>) -> Seq<int> {
    Seq::new(nodes.len(), |k: int| nodes[k].1 as int)
}

/// What a workflow file holds, entry by entry, as plain values.
pub struct WorkflowEntries {
    pub nodes: Seq<(u32, u32)>,
    pub links: Seq<(u32, u32, u32, u32)>,
    pub infos: Seq<NodeView>,
    pub input_labels: Seq<(u32, u32, Seq<char>)>,
    pub output_labels: Seq<(u32, u32, Seq<char>)>,
    pub comments: Seq<(u32, Seq<char>)>,
    pub outputs: Seq<(u32, u32, Seq<char>)>,
    pub names: Seq<Seq<char>>,
    pub index: Seq<(u32, u32, u32)>,
    pub nested: Seq<(Seq<char>, WorkflowEntries)>,
}

/// The node infos (as many as nodes, else `ReadError`), the input and
/// output labels and the comments, each under its key.
#[verifier::opaque]
pub open spec fn first_read(s: Seq<u8>, nodes: Seq<(u32, u32)>) -> Result<
    (Seq<NodeView>, Seq<(u32, u32, Seq<char>)>, Seq<(u32, u32, Seq<char>)>, Seq<(u32, Seq<char>)>, Seq<u8>),
    DagError,
> {
    match key_res(s, "node_infos"@) {
        Err(e) => Err(e),
        Ok(s) => match array_res(s) {
            Err(e) => Err(e),
            Ok((n, s)) => if n != nodes.len() {
                Err(DagError::ReadError)
            } else {
                match infos_read(s, n as nat) {
                    Err(e) => Err(e),
                    Ok((infos, s)) => match key_res(s, "input_labels"@) {
                        Err(e) => Err(e),
                        Ok(s) => match array_res(s) {
                            Err(e) => Err(e),
                            Ok((n, s)) => match labels_read(s, n as nat, input_lens(nodes)) {
                                Err(e) => Err(e),
                                Ok((ils, s)) => match key_res(s, "output_labels"@) {
                                    Err(e) => Err(e),
                                    Ok(s) => match array_res(s) {
                                        Err(e) => Err(e),
                                        Ok((n, s)) => match labels_read(s, n as nat, output_lens(nodes)) {
                                            Err(e) => Err(e),
                                            Ok((ols, s)) => match key_res(s, "node_comments"@) {
                                                Err(e) => Err(e),
                                                Ok(s) => match map_res(s) {
                                                    Err(e) => Err(e),
                                                    Ok((n, s)) => match comments_read(s, n as nat, nodes.len() as int) {
                                                        Err(e) => Err(e),
                                                        Ok((cs, s)) => Ok((infos, ils, ols, cs, s)),
                                                    },
                                                },
                                            },
                                        },
                                    },
                                },
                            },
                        },
                    },
                }
            },
        },
    }
}

/// The workflow outputs, the input names and the input index, each under
/// its key.
#[verifier::opaque]
pub open spec fn second_read(s: Seq<u8>, nodes: Seq<(u32, u32)>) -> Result<
    (Seq<(u32, u32, Seq<char>)>, Seq<Seq<char>>, Seq<(u32, u32, u32)>, Seq<u8>),
    DagError,
> {
    match key_res(s, "workflow_outputs"@) {
        Err(e) => Err(e),
        Ok(s) => match array_res(s) {
            Err(e) => Err(e),
            Ok((n, s)) => match outputs_read(s, n as nat, output_lens(nodes), Seq::empty()) {
                Err(e) => Err(e),
                Ok((outs, s)) => match key_res(s, "workflow_input_names"@) {
                    Err(e) => Err(e),
                    Ok(s) => match array_res(s) {
                        Err(e) => Err(e),
                        Ok((n, s)) => match strings_read(s, n as nat) {
                            Err(e) => Err(e),
                            Ok((names, s)) => match key_res(s, "workflow_input_index"@) {
                                Err(e) => Err(e),
                                Ok(s) => match array_res(s) {
                                    Err(e) => Err(e),
                                    Ok((n, s)) => match index_read(s, n as nat, input_lens(nodes), names.len() as int) {
                                        Err(e) => Err(e),
                                        Ok((idx, s)) => Ok((outs, names, idx, s)),
                                    },
                                },
                            },
                        },
                    },
                },
            },
        },
    }
}

/// The part of a workflow file after its graph, given the graph's node
/// entries: node infos, labels, comments, workflow outputs, input names and
/// input index, each under its key. The nested workflows follow.
pub open spec fn sections_read(s: Seq<u8>, nodes: Seq<(u32, u32)>) -> Result<
    (Seq<NodeView>, Seq<(u32, u32, Seq<char>)>, Seq<(u32, u32, Seq<char>)>, Seq<(u32, Seq<char>)>, Seq<(u32, u32, Seq<char>)>, Seq<Seq<char>>, Seq<(u32, u32, u32)>, Seq<u8>),
    DagError,
> {
    match first_read(s, nodes) {
        Err(e) => Err(e),
        Ok((infos, ils, ols, cs, t)) => match second_read(t, nodes) {
            Err(e) => Err(e),
            Ok((outs, names, idx, u)) => Ok((infos, ils, ols, cs, outs, names, idx, u)),
        },
    }
}

/// The start of a workflow file: a map header, the `version` key and the
/// version (`VersionMismatch` for another one), the `graph` key and the
/// graph layout, whose links must fit its nodes.
#[verifier::opaque]
pub open spec fn head_read(s: Seq<u8>) -> Result<(Seq<(u32, u32)>, Seq<(u32, u32, u32, u32)>, Seq<u8>), DagError> {
    match map_res(s) {
        Err(e) => Err(e),
        Ok((_n, s)) => match key_res(s, "version"@) {
            Err(e) => Err(e),
            Ok(s) => match u64_read(s) {
                None => Err(DagError::ReadError),
                Some((v, b)) => if v != WORKFLOW_MSGPACK_VERSION_CURRENT {
                    Err(DagError::VersionMismatch)
                } else {
                    match key_res(s.skip(b as int), "graph"@) {
                        Err(e) => Err(e),
                        Ok(s) => match layout_read(s) {
                            Err(e) => Err(e),
                            Ok((nodes, links, s)) => if !links_fit(nodes, links) {
                                Err(DagError::ReadError)
                            } else {
                                Ok((nodes, links, s))
                            },
                        },
                    }
                },
            },
        },
    }
}

/// A whole workflow file at the front of `s`. A nested workflow always
/// takes bytes, so the reading of the nested entries goes on only on
/// fewer bytes than it started with (else `ReadError`).
pub open spec fn workflow_read(s: Seq<u8>) -> Result<(WorkflowEntries, Seq<u8>), DagError>
    decreases s.len(), 0nat,
{
    match head_read(s) {
        Err(e) => Err(e),
        Ok((nodes, links, t)) => match sections_read(t, nodes) {
            Err(e) => Err(e),
            Ok((infos, ils, ols, cs, outs, names, idx, u)) => match key_res(u, "nested_workflows"@) {
                Err(e) => Err(e),
                Ok(u) => match array_res(u) {
                    Err(e) => Err(e),
                    Ok((n, u)) => if u.len() < s.len() {
                        match nested_read(u, n as nat) {
                            Err(e) => Err(e),
                            Ok((nested, v)) => Ok((
                                WorkflowEntries {
                                    nodes,
                                    links,
                                    infos,
                                    input_labels: ils,
                                    output_labels: ols,
                                    comments: cs,
                                    outputs: outs,
                                    names,
                                    index: idx,
                                    nested,
                                },
                                v,
                            )),
                        }
                    } else {
                        Err(DagError::ReadError)
                    },
                },
            },
        },
    }
}

/// `n` nested workflow entries `[name, workflow]`.
pub open spec fn nested_read(s: Seq<u8>, n: nat) -> Result<(Seq<(Seq<char>, WorkflowEntries)>, Seq<u8>), DagError>
    decreases s.len(), n,
{
    if n == 0 {
        Ok((Seq::empty(), s))
    } else {
        match header_res(s, 2) {
            Err(e) => Err(e),
            Ok(t) => match str_res(t) {
                Err(e) => Err(e),
                Ok((name, u)) => if u.len() < s.len() {
                    match workflow_read(u) {
                        Err(e) => Err(e),
                        Ok((w, v)) => if v.len() < s.len() {
                            match nested_read(v, (n - 1) as nat) {
                                Err(e) => Err(e),
                                Ok((ws, x)) => Ok((seq![(name, w)] + ws, x)),
                            }
                        } else {
                            Err(DagError::ReadError)
                        },
                    }
                } else {
                    Err(DagError::ReadError)
                },
            },
        }
    }
}

/// The workflow file as read: the graph, and the entries of the file with
/// each pin and node given by its handle in that graph.
pub struct WorkflowRead {
    pub graph: Graph,
    pub node_infos: Vec<NodeLayout>,
    pub input_labels: Vec<(IH, String)>,
    pub output_labels: Vec<(OH, String)>,
    pub node_comments: Vec<(NH, String)>,
    pub workflow_outputs: Vec<(OH, String)>,
    pub workflow_input_names: Vec<String>,
    pub workflow_input_index: Vec<(IH, u32)>,
    pub nested_workflows: Vec<(String, WorkflowRead)>,
}

/// The input pin at `place` of node `node` of `g`.
pub open spec fn input_at(g: Graph, node: u32, place: u32) -> IH {
    IH { idx: g.input_pins(node as int)[place as int] as usize }
}

/// The output pin at `place` of node `node` of `g`.
pub open spec fn output_at(g: Graph, node: u32, place: u32) -> OH {
    OH { idx: g.output_pins(node as int)[place as int] as usize }
}

/// `r` holds what `e` says: a graph read from its layout into an empty
/// graph, and every entry with its pins and nodes turned into handles.
#[verifier::opaque]
pub open spec fn read_matches(r: WorkflowRead, e: WorkflowEntries) -> bool
    decreases r,
{
    let g = r.graph;
    &&& g.wf()
    &&& exists|g0: Graph|
        g0.node_seq().len() == 0 && g0.input_seq().len() == 0 && g0.output_seq().len() == 0 && g0.link_seq().len()
            == 0 && #[trigger] g.read_into(g0, e.nodes, e.links)
    &&& r.node_infos@.map_values(|n: NodeLayout| node_view(n)) == e.infos
    &&& r.input_labels@.len() == e.input_labels.len()
    &&& forall|k: int|
        0 <= k < e.input_labels.len() ==> (#[trigger] r.input_labels@[k]).0 == input_at(
            g,
            e.input_labels[k].0,
            e.input_labels[k].1,
        ) && r.input_labels@[k].1@ == e.input_labels[k].2
    &&& r.output_labels@.len() == e.output_labels.len()
    &&& forall|k: int|
        0 <= k < e.output_labels.len() ==> (#[trigger] r.output_labels@[k]).0 == output_at(
            g,
            e.output_labels[k].0,
            e.output_labels[k].1,
        ) && r.output_labels@[k].1@ == e.output_labels[k].2
    &&& r.node_comments@.len() == e.comments.len()
    &&& forall|k: int|
        0 <= k < e.comments.len() ==> (#[trigger] r.node_comments@[k]).0.idx == e.comments[k].0
            && r.node_comments@[k].1@ == e.comments[k].1
    &&& r.workflow_outputs@.len() == e.outputs.len()
    &&& forall|k: int|
        0 <= k < e.outputs.len() ==> (#[trigger] r.workflow_outputs@[k]).0 == output_at(g, e.outputs[k].0, e.outputs[k].1)
            && r.workflow_outputs@[k].1@ == e.outputs[k].2
    &&& r.workflow_input_names@.len() == e.names.len()
    &&& forall|k: int| 0 <= k < e.names.len() ==> (#[trigger] r.workflow_input_names@[k])@ == e.names[k]
    &&& r.workflow_input_index@.len() == e.index.len()
    &&& forall|k: int|
        0 <= k < e.index.len() ==> (#[trigger] r.workflow_input_index@[k]).0 == input_at(g, e.index[k].0, e.index[k].1)
            && r.workflow_input_index@[k].1 == e.index[k].2
    &&& r.nested_workflows@.len() == e.nested.len()
    &&& forall|k: int|
        0 <= k < e.nested.len() ==> (#[trigger] r.nested_workflows@[k]).0@ == e.nested[k].0 && read_matches(
            r.nested_workflows@[k].1,
            e.nested[k].1,
        )
}

/// Every node comment of `r`, and of each of its nested workflows, names
/// a node of that workflow's graph.
pub open spec fn comments_name_nodes(r: WorkflowRead) -> bool
    decreases r,
{
    &&& forall|k: int|
        0 <= k < r.node_comments@.len() ==> (#[trigger] r.node_comments@[k]).0.idx < r.graph.node_seq().len()
    &&& forall|k: int| 0 <= k < r.nested_workflows@.len() ==> comments_name_nodes((#[trigger] r.nested_workflows@[k]).1)
}

/// Whether `a` and `b` are the same string, byte by byte.
fn same_str(a: &str, b: &str) -> (r: bool)
    ensures
        r == (a@ == b@),
{
    let x = a.as_bytes();
    let y = b.as_bytes();
    proof {
        encode_utf8_decode_utf8(a@);
        encode_utf8_decode_utf8(b@);
    }
    if x.len() != y.len() {
        assert(x@ == encode_utf8(a@) && y@ == encode_utf8(b@));
        return false;
    }
    let mut k: usize = 0;
    while k < x.len()
        invariant
            0 <= k <= x@.len(),
            x@.len() == y@.len(),
            x@ == encode_utf8(a@),
            y@ == encode_utf8(b@),
            decode_utf8(encode_utf8(a@)) == a@,
            decode_utf8(encode_utf8(b@)) == b@,
            forall|j: int| 0 <= j < k ==> x@[j] == y@[j],
        decreases x@.len() - k,
    {
        if x[k] != y[k] {
            assert(x@ != y@);
            return false;
        }
        k = k + 1;
    }
    assert(x@ =~= y@);
    true
}

/// Reads a key that must be `key`.
fn read_key(src: &mut Bytes<'_>, key: &str) -> (r: Result<(), DagError>)
    ensures
        match key_res(unread(*old(src)), key@) {
            Ok(t) => r is Ok && unread(*final(src)) == t,
            Err(e) => r == Err::<(), DagError>(e),
        },
{
    let k = read_str_item(src)?;
    if same_str(k.as_str(), key) {
        Ok(())
    } else {
        Err(DagError::ReadError)
    }
}

/// Reads an array header.
fn read_array_item(src: &mut Bytes<'_>) -> (r: Result<u32, DagError>)
    ensures
        match array_res(unread(*old(src))) {
            Ok((v, t)) => r == Ok::<u32, DagError>(v) && unread(*final(src)) == t,
            Err(e) => r == Err::<u32, DagError>(e),
        },
{
    match read_array_len(src) {
        Some(v) => Ok(v),
        None => Err(DagError::ReadError),
    }
}

/// Reads a map header.
fn read_map_item(src: &mut Bytes<'_>) -> (r: Result<u32, DagError>)
    ensures
        match map_res(unread(*old(src))) {
            Ok((v, t)) => r == Ok::<u32, DagError>(v) && unread(*final(src)) == t,
            Err(e) => r == Err::<u32, DagError>(e),
        },
{
    match read_map_len(src) {
        Some(v) => Ok(v),
        None => Err(DagError::ReadError),
    }
}

/// Reads the start of a workflow file into `graph`, which receives the
/// nodes and links of the layout; `ihs` and `ohs` receive the pins of each
/// node read.
fn read_head(src: &mut Bytes<'_>, graph: &mut Graph, ihs: &mut NestedVec<IH>, ohs: &mut NestedVec<OH>) -> (r: Result<(), DagError>)
    requires
        old(graph).wf(),
        old(ihs).wf(),
        old(ohs).wf(),
    ensures
        final(graph).wf(),
        final(ihs).wf(),
        final(ohs).wf(),
        match head_read(unread(*old(src))) {
            Ok((nodes, links, t)) => {
                &&& r is Ok
                &&& final(graph).read_into(*old(graph), nodes, links)
                &&& unread(*final(src)) == t
                &&& final(ihs).lists() == Seq::new(
                    nodes.len(),
                    |k: int| final(graph).input_pins(old(graph).node_seq().len() + k).map_values(|q: int| IH { idx: q as usize }),
                )
                &&& final(ohs).lists() == Seq::new(
                    nodes.len(),
                    |k: int| final(graph).output_pins(old(graph).node_seq().len() + k).map_values(|q: int| OH { idx: q as usize }),
                )
            },
            Err(e) => r == Err::<(), DagError>(e),
        },
{
    reveal(head_read);
    read_map_item(src)?;
    read_key(src, "version")?;
    let v = match read_u64(src) {
        Some(v) => v,
        None => return Err(DagError::ReadError),
    };
    if v != WORKFLOW_MSGPACK_VERSION_CURRENT {
        return Err(DagError::VersionMismatch);
    }
    read_key(src, "graph")?;
    graph.read_from_msgpack(src, ihs, ohs)
}

/// What follows the graph in a workflow file, up to the nested workflows.
pub struct Sections {
    pub node_infos: Vec<NodeLayout>,
    pub input_labels: Vec<(IH, String)>,
    pub output_labels: Vec<(OH, String)>,
    pub node_comments: Vec<(NH, String)>,
    pub workflow_outputs: Vec<(OH, String)>,
    pub workflow_input_names: Vec<String>,
    pub workflow_input_index: Vec<(IH, u32)>,
}

/// `x` holds the entries `v` with each pin taken from `ihs` and `ohs`.
pub open spec fn sections_match(
    x: Sections,
    v: (Seq<NodeView>, Seq<(u32, u32, Seq<char>)>, Seq<(u32, u32, Seq<char>)>, Seq<(u32, Seq<char>)>, Seq<(u32, u32, Seq<char>)>, Seq<Seq<char>>, Seq<(u32, u32, u32)>, Seq<u8>),
    ihs: NestedVec<IH>,
    ohs: NestedVec<OH>,
) -> bool {
    &&& x.node_infos@.map_values(|n: NodeLayout| node_view(n)) == v.0
    &&& x.input_labels@.len() == v.1.len()
    &&& forall|k: int|
        0 <= k < v.1.len() ==> #[trigger] x.input_labels@[k].0 == ihs.lists()[v.1[k].0 as int][v.1[k].1 as int]
            && x.input_labels@[k].1@ == v.1[k].2 && pin_ok(list_lens(ihs), v.1[k].0, v.1[k].1)
    &&& x.output_labels@.len() == v.2.len()
    &&& forall|k: int|
        0 <= k < v.2.len() ==> #[trigger] x.output_labels@[k].0 == ohs.lists()[v.2[k].0 as int][v.2[k].1 as int]
            && x.output_labels@[k].1@ == v.2[k].2 && pin_ok(list_lens(ohs), v.2[k].0, v.2[k].1)
    &&& x.node_comments@.len() == v.3.len()
    &&& forall|k: int| 0 <= k < v.3.len() ==> #[trigger] x.node_comments@[k].0.idx == v.3[k].0 && x.node_comments@[k].1@ == v.3[k].1
    &&& x.workflow_outputs@.len() == v.4.len()
    &&& forall|k: int|
        0 <= k < v.4.len() ==> #[trigger] x.workflow_outputs@[k].0 == ohs.lists()[v.4[k].0 as int][v.4[k].1 as int]
            && x.workflow_outputs@[k].1@ == v.4[k].2 && pin_ok(list_lens(ohs), v.4[k].0, v.4[k].1)
    &&& x.workflow_input_names@.len() == v.5.len()
    &&& forall|k: int| 0 <= k < v.5.len() ==> (#[trigger] x.workflow_input_names@[k])@ == v.5[k]
    &&& x.workflow_input_index@.len() == v.6.len()
    &&& forall|k: int|
        0 <= k < v.6.len() ==> #[trigger] x.workflow_input_index@[k].0 == ihs.lists()[v.6[k].0 as int][v.6[k].1 as int]
            && x.workflow_input_index@[k].1 == v.6[k].2 && pin_ok(list_lens(ihs), v.6[k].0, v.6[k].1)
}

/// Reads the node infos, the labels and the comments.
fn read_first(src: &mut Bytes<'_>, n_nodes: usize, nodes: Ghost<Seq<(u32, u32)>>, ihs: &NestedVec<IH>, ohs: &NestedVec<OH>) -> (r: Result<
    (Vec<NodeLayout>, Vec<(IH, String)>, Vec<(OH, String)>, Vec<(NH, String)>),
    DagError,
>)
    requires
        ihs.wf(),
        ohs.wf(),
        list_lens(*ihs) == input_lens(nodes@),
        list_lens(*ohs) == output_lens(nodes@),
        n_nodes == nodes@.len(),
    ensures
        match first_read(unread(*old(src)), nodes@) {
            Ok(v) => r matches Ok(x) && x.0@.map_values(|n: NodeLayout| node_view(n)) == v.0 && x.1@.len() == v.1.len()
                && (forall|k: int|
                0 <= k < v.1.len() ==> #[trigger] x.1@[k].0 == ihs.lists()[v.1[k].0 as int][v.1[k].1 as int]
                    && x.1@[k].1@ == v.1[k].2 && pin_ok(list_lens(*ihs), v.1[k].0, v.1[k].1)) && x.2@.len() == v.2.len()
                && (forall|k: int|
                0 <= k < v.2.len() ==> #[trigger] x.2@[k].0 == ohs.lists()[v.2[k].0 as int][v.2[k].1 as int]
                    && x.2@[k].1@ == v.2[k].2 && pin_ok(list_lens(*ohs), v.2[k].0, v.2[k].1)) && x.3@.len() == v.3.len()
                && (forall|k: int| 0 <= k < v.3.len() ==> #[trigger] x.3@[k].0.idx == v.3[k].0 && x.3@[k].1@ == v.3[k].1)
                && unread(*final(src)) == v.4,
            Err(e) => r matches Err(x) && x == e,
        },
        r matches Ok(x) ==> forall|k: int| 0 <= k < x.3@.len() ==> (#[trigger] x.3@[k]).0.idx < n_nodes,
{
    reveal(first_read);
    read_key(src, "node_infos")?;
    let n = read_array_item(src)?;
    if n as usize != n_nodes {
        return Err(DagError::ReadError);
    }
    let node_infos = read_node_infos(src, n as usize)?;
    read_key(src, "input_labels")?;
    let n = read_array_item(src)?;
    let input_labels = read_labels(src, n as usize, ihs)?;
    read_key(src, "output_labels")?;
    let n = read_array_item(src)?;
    let output_labels = read_labels(src, n as usize, ohs)?;
    read_key(src, "node_comments")?;
    let n = read_map_item(src)?;
    let node_comments = read_comments(src, n as usize, n_nodes)?;
    Ok((node_infos, input_labels, output_labels, node_comments))
}

/// Reads the workflow outputs, the input names and the input index.
fn read_second(src: &mut Bytes<'_>, nodes: Ghost<Seq<(u32, u32)>>, ihs: &NestedVec<IH>, ohs: &NestedVec<OH>) -> (r: Result<
    (Vec<(OH, String)>, Vec<String>, Vec<(IH, u32)>),
    DagError,
>)
    requires
        ihs.wf(),
        ohs.wf(),
        list_lens(*ihs) == input_lens(nodes@),
        list_lens(*ohs) == output_lens(nodes@),
    ensures
        match second_read(unread(*old(src)), nodes@) {
            Ok(v) => r matches Ok(x) && x.0@.len() == v.0.len() && (forall|k: int|
                0 <= k < v.0.len() ==> #[trigger] x.0@[k].0 == ohs.lists()[v.0[k].0 as int][v.0[k].1 as int]
                    && x.0@[k].1@ == v.0[k].2 && pin_ok(list_lens(*ohs), v.0[k].0, v.0[k].1)) && x.1@.len() == v.1.len()
                && (forall|k: int| 0 <= k < v.1.len() ==> (#[trigger] x.1@[k])@ == v.1[k]) && x.2@.len() == v.2.len() && (
            forall|k: int|
                0 <= k < v.2.len() ==> #[trigger] x.2@[k].0 == ihs.lists()[v.2[k].0 as int][v.2[k].1 as int]
                    && x.2@[k].1 == v.2[k].2 && pin_ok(list_lens(*ihs), v.2[k].0, v.2[k].1)) && unread(*final(src)) == v.3,
            Err(e) => r matches Err(x) && x == e,
        },
{
    reveal(second_read);
    let ghost s0 = unread(*src);
    read_key(src, "workflow_outputs")?;
    let n = read_array_item(src)?;
    let workflow_outputs = read_outputs(src, n as usize, ohs)?;
    read_key(src, "workflow_input_names")?;
    let n = read_array_item(src)?;
    let workflow_input_names = read_strings(src, n as usize)?;
    read_key(src, "workflow_input_index")?;
    let n = read_array_item(src)?;
    let workflow_input_index = read_index(src, n as usize, ihs, workflow_input_names.len())?;
    let ghost v = second_read(s0, nodes@)->Ok_0;
    assert(second_read(s0, nodes@) is Ok);
    assert(workflow_input_index@.len() == v.2.len());
    assert(workflow_input_names@.len() == v.1.len());
    assert(workflow_outputs@.len() == v.0.len());
    Ok((workflow_outputs, workflow_input_names, workflow_input_index))
}

/// Reads what follows the graph, up to the nested workflows.
fn read_sections(src: &mut Bytes<'_>, n_nodes: usize, nodes: Ghost<Seq<(u32, u32)>>, ihs: &NestedVec<IH>, ohs: &NestedVec<OH>) -> (r: Result<Sections, DagError>)
    requires
        ihs.wf(),
        ohs.wf(),
        list_lens(*ihs) == input_lens(nodes@),
        list_lens(*ohs) == output_lens(nodes@),
        n_nodes == nodes@.len(),
    ensures
        match sections_read(unread(*old(src)), nodes@) {
            Ok(v) => r matches Ok(x) && sections_match(x, v, *ihs, *ohs) && unread(*final(src)) == v.7,
            Err(e) => r matches Err(x) && x == e,
        },
        r matches Ok(x) ==> forall|k: int| 0 <= k < x.node_comments@.len() ==> (#[trigger] x.node_comments@[k]).0.idx
            < n_nodes,
{
    let a = read_first(src, n_nodes, nodes, ihs, ohs)?;
    let b = read_second(src, nodes, ihs, ohs)?;
    Ok(Sections {
        node_infos: a.0,
        input_labels: a.1,
        output_labels: a.2,
        node_comments: a.3,
        workflow_outputs: b.0,
        workflow_input_names: b.1,
        workflow_input_index: b.2,
    })
}

impl WorkflowRead {
    /// Reads a workflow file written by `WorkflowLayout::write_to_msgpack`:
    /// the graph into a fresh graph, then every entry, each pin and node
    /// named by the file checked to be there and turned into its handle.
    /// `VersionMismatch` for another version of the format; `InvalidOutputs`
    /// when two workflow outputs name the same pin; `InvalidInputs` when an
    /// input pin names a workflow input past the names read; `ReadError`
    /// for anything else that does not parse or names what is not there.
    /// Function names and constant types are handed back as read: turning
    /// them into the plugins' functions and types, and refusing a name no
    /// plugin knows, is for the caller that holds the plugins.
    pub fn read_from_msgpack(src: &mut Bytes<'_>) -> (r: Result<WorkflowRead, DagError>)
        ensures
            match workflow_read(unread(*old(src))) {
                Ok((e, t)) => r matches Ok(w) && read_matches(w, e) && unread(*final(src)) == t,
                Err(x) => r matches Err(y) && y == x,
            },
            r matches Ok(w) ==> comments_name_nodes(w),
        decreases unread(*old(src)).len(), 0nat,
    {
        let ghost s0 = unread(*src);
        proof {
            reveal(workflow_read);
        }
        let left0 = bytes_left(src);
        let mut graph = Graph::default();
        let mut ihs: NestedVec<IH> = NestedVec::default();
        let mut ohs: NestedVec<OH> = NestedVec::default();
        let ghost g0 = graph;
        read_head(src, &mut graph, &mut ihs, &mut ohs)?;
        let ghost nodes = head_read(s0)->Ok_0.0;
        let ghost links = head_read(s0)->Ok_0.1;
        proof {
            graph.lemma_pins();
            assert(list_lens(ihs) =~= input_lens(nodes)) by {
                assert forall|k: int| 0 <= k < nodes.len() implies #[trigger] list_lens(ihs)[k] == input_lens(nodes)[k] by {
                    assert(graph.input_pins(0 + k).len() == nodes[k].0);
                }
            }
            assert(list_lens(ohs) =~= output_lens(nodes)) by {
                assert forall|k: int| 0 <= k < nodes.len() implies #[trigger] list_lens(ohs)[k] == output_lens(nodes)[k] by {
                    assert(graph.output_pins(0 + k).len() == nodes[k].1);
                }
            }
        }
        let n_nodes = graph.nodes().len();
        let sec = read_sections(src, n_nodes, Ghost(nodes), &ihs, &ohs)?;
        read_key(src, "nested_workflows")?;
        let n = read_array_item(src)?;
        if bytes_left(src) >= left0 {
            return Err(DagError::ReadError);
        }
        let nested_workflows = read_nested(src, n as usize)?;
        let ghost sg = sec;
        let w = WorkflowRead {
            graph,
            node_infos: sec.node_infos,
            input_labels: sec.input_labels,
            output_labels: sec.output_labels,
            node_comments: sec.node_comments,
            workflow_outputs: sec.workflow_outputs,
            workflow_input_names: sec.workflow_input_names,
            workflow_input_index: sec.workflow_input_index,
            nested_workflows,
        };
        proof {
            reveal(read_matches);
            let e = workflow_read(s0)->Ok_0.0;
            let g = w.graph;
            let h = head_read(s0)->Ok_0;
            let v = sections_read(h.2, h.0)->Ok_0;
            assert(e.nodes == h.0 && e.links == h.1);
            assert(e.input_labels == v.1 && e.output_labels == v.2 && e.outputs == v.4 && e.index == v.6);
            assert(ihs.lists().len() == nodes.len());
            assert(sections_match(sg, v, ihs, ohs));
            assert(g.read_into(g0, e.nodes, e.links));
            assert forall|k: int| 0 <= k < e.input_labels.len() implies (#[trigger] w.input_labels@[k]).0 == input_at(
                g,
                e.input_labels[k].0,
                e.input_labels[k].1,
            ) by {
                let node = e.input_labels[k].0 as int;
                assert(sg.input_labels@[k].0 == ihs.lists()[v.1[k].0 as int][v.1[k].1 as int]);
                assert(pin_ok(list_lens(ihs), e.input_labels[k].0, e.input_labels[k].1));
                assert(ihs.lists()[node] == g.input_pins(0 + node).map_values(|q: int| IH { idx: q as usize }));
            }
            assert forall|k: int| 0 <= k < e.output_labels.len() implies (#[trigger] w.output_labels@[k]).0 == output_at(
                g,
                e.output_labels[k].0,
                e.output_labels[k].1,
            ) by {
                let node = e.output_labels[k].0 as int;
                assert(sg.output_labels@[k].0 == ohs.lists()[v.2[k].0 as int][v.2[k].1 as int]);
                assert(pin_ok(list_lens(ohs), e.output_labels[k].0, e.output_labels[k].1));
                assert(ohs.lists()[node] == g.output_pins(0 + node).map_values(|q: int| OH { idx: q as usize }));
            }
            assert forall|k: int| 0 <= k < e.outputs.len() implies (#[trigger] w.workflow_outputs@[k]).0 == output_at(
                g,
                e.outputs[k].0,
                e.outputs[k].1,
            ) by {
                let node = e.outputs[k].0 as int;
                assert(sg.workflow_outputs@[k].0 == ohs.lists()[v.4[k].0 as int][v.4[k].1 as int]);
                assert(pin_ok(list_lens(ohs), e.outputs[k].0, e.outputs[k].1));
                assert(ohs.lists()[node] == g.output_pins(0 + node).map_values(|q: int| OH { idx: q as usize }));
            }
            assert forall|k: int| 0 <= k < e.index.len() implies (#[trigger] w.workflow_input_index@[k]).0 == input_at(
                g,
                e.index[k].0,
                e.index[k].1,
            ) by {
                let node = e.index[k].0 as int;
                assert(sg.workflow_input_index@[k].0 == ihs.lists()[v.6[k].0 as int][v.6[k].1 as int]);
                assert(pin_ok(list_lens(ihs), e.index[k].0, e.index[k].1));
                assert(ihs.lists()[node] == g.input_pins(0 + node).map_values(|q: int| IH { idx: q as usize }));
            }
        }
        Ok(w)
    }
}

/// One step of reading nested entries: the header, the name, the
/// workflow, then the remaining entries.
proof fn lemma_nested_step(s: Seq<u8>, n: nat, t: Seq<u8>, name: Seq<char>, u: Seq<u8>)
    requires
        n > 0,
        header_res(s, 2) == Ok::<Seq<u8>, DagError>(t),
        str_res(t) == Ok::<(Seq<char>, Seq<u8>), DagError>((name, u)),
        u.len() < s.len(),
    ensures
        nested_read(s, n) == match workflow_read(u) {
            Err(e) => Err(e),
            Ok((w, v)) => if v.len() < s.len() {
                match nested_read(v, (n - 1) as nat) {
                    Err(e) => Err(e),
                    Ok((ws, x)) => Ok((seq![(name, w)] + ws, x)),
                }
            } else {
                Err(DagError::ReadError)
            },
        },
{
    reveal(nested_read);
    assert(nested_read(s, n) == match header_res(s, 2) {
        Err(e) => Err(e),
        Ok(t) => match str_res(t) {
            Err(e) => Err(e),
            Ok((name, u)) => if u.len() < s.len() {
                match workflow_read(u) {
                    Err(e) => Err(e),
                    Ok((w, v)) => if v.len() < s.len() {
                        match nested_read(v, (n - 1) as nat) {
                            Err(e) => Err(e),
                            Ok((ws, x)) => Ok((seq![(name, w)] + ws, x)),
                        }
                    } else {
                        Err(DagError::ReadError)
                    },
                }
            } else {
                Err(DagError::ReadError)
            },
        },
    });
}

/// Reads `count` nested workflow entries `[name, workflow]`.
fn read_nested(src: &mut Bytes<'_>, count: usize) -> (r: Result<Vec<(String, WorkflowRead)>, DagError>)
    ensures
        match nested_read(unread(*old(src)), count as nat) {
            Ok((ws, t)) => r matches Ok(x) && x@.len() == ws.len() && unread(*final(src)) == t && forall|k: int|
                0 <= k < ws.len() ==> (#[trigger] x@[k]).0@ == ws[k].0 && read_matches(x@[k].1, ws[k].1),
            Err(e) => r matches Err(x) && x == e,
        },
        r matches Ok(x) ==> forall|k: int| 0 <= k < x@.len() ==> comments_name_nodes((#[trigger] x@[k]).1),
    decreases unread(*old(src)).len(), count,
{
    let ghost p = unread(*src);
    proof {
        reveal(nested_read);
    }
    let ghost mut done: Seq<(Seq<char>, WorkflowEntries)> = Seq::empty();
    let mut out: Vec<(String, WorkflowRead)> = Vec::new();
    let mut i: usize = 0;
    assert(prepend(done, nested_read(p, count as nat)) == nested_read(p, count as nat)) by {
        match nested_read(p, count as nat) {
            Ok((vs, u)) => assert(done + vs =~= vs),
            Err(e) => {},
        }
    }
    while i < count
        invariant
            0 <= i <= count,
            p == unread(*old(src)),
            unread(*src).len() <= p.len(),
            nested_read(p, count as nat) == prepend(done, nested_read(unread(*src), (count - i) as nat)),
            out@.len() == done.len(),
            forall|k: int| 0 <= k < done.len() ==> (#[trigger] out@[k]).0@ == done[k].0 && read_matches(out@[k].1, done[k].1),
            forall|k: int| 0 <= k < out@.len() ==> comments_name_nodes((#[trigger] out@[k]).1),
        decreases count - i,
    {
        let ghost cur = unread(*src);
        let left = bytes_left(src);
        match read_header(src, 2) {
            Ok(()) => {},
            Err(x) => {
                assert(nested_read(cur, (count - i) as nat) == Err::<(Seq<(Seq<char>, WorkflowEntries)>, Seq<u8>), DagError>(x)) by {
                    reveal(nested_read);
                }
                return Err(x);
            },
        }
        let ghost t1 = unread(*src);
        assert(header_res(cur, 2) == Ok::<Seq<u8>, DagError>(t1));
        let name = match read_str_item(src) {
            Ok(v) => v,
            Err(x) => {
                assert(nested_read(cur, (count - i) as nat) == Err::<(Seq<(Seq<char>, WorkflowEntries)>, Seq<u8>), DagError>(x)) by {
                    reveal(nested_read);
                }
                return Err(x);
            },
        };
        if bytes_left(src) >= left {
            assert(nested_read(cur, (count - i) as nat) == Err::<(Seq<(Seq<char>, WorkflowEntries)>, Seq<u8>), DagError>(DagError::ReadError)) by {
                    reveal(nested_read);
                }
            return Err(DagError::ReadError);
        }
        let ghost u = unread(*src);
        assert(str_res(t1) == Ok::<(Seq<char>, Seq<u8>), DagError>((name@, u)));
        assert(u.len() < cur.len());
        let w = match WorkflowRead::read_from_msgpack(src) {
            Ok(w) => w,
            Err(x) => {
                assert(workflow_read(u) == Err::<(WorkflowEntries, Seq<u8>), DagError>(x));
                proof {
                    lemma_nested_step(cur, (count - i) as nat, t1, name@, u);
                }
                return Err(x);
            },
        };
        let ghost wv = unread(*src);
        assert(workflow_read(u) is Ok && workflow_read(u)->Ok_0.1 == wv);
        if bytes_left(src) >= left {
            assert(nested_read(cur, (count - i) as nat) == Err::<(Seq<(Seq<char>, WorkflowEntries)>, Seq<u8>), DagError>(DagError::ReadError)) by {
                    reveal(nested_read);
                }
            return Err(DagError::ReadError);
        }
        let ghost v = (name@, workflow_read(u)->Ok_0.0);
        proof {
            lemma_nested_step(cur, (count - i) as nat, t1, name@, u);
            let nd = done.push(v);
            match nested_read(unread(*src), (count - i - 1) as nat) {
                Ok((vs, x)) => {
                    assert(nd + vs =~= done + (seq![v] + vs));
                },
                Err(x) => {},
            }
        }
        out.push((name, w));
        proof {
            done = done.push(v);
        }
        i = i + 1;
    }
    proof {
        reveal(nested_read);
        assert(done + Seq::<(Seq<char>, WorkflowEntries)>::empty() =~= done);
    }
    Ok(out)
}

impl WorkflowRead {
    /// Reads the workflow file at the start of `bytes`, as
    /// `read_from_msgpack` reads it from a reader over them.
    pub fn from_msgpack_bytes(bytes: &[u8]) -> (r: Result<WorkflowRead, DagError>)
        ensures
            match workflow_read(bytes@) {
                Ok((e, _)) => r matches Ok(w) && read_matches(w, e),
                Err(x) => r matches Err(y) && y == x,
            },
            r matches Ok(w) ==> comments_name_nodes(w),
    {
        let mut src = reader(bytes);
        WorkflowRead::read_from_msgpack(&mut src)
    }
}

} // verus!
