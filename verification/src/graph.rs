//! The topology of a workflow: nodes with input and output pins, and links
//! from an output pin to an input pin.
//!
//! Elements are identified by their index. The pins of a node form a doubly
//! linked list, so do the links leaving one output. An input takes at most
//! one link: connecting it again replaces the old link, which is marked
//! deleted and stays in place until `garbage_collection` compacts the
//! storage.
use vstd::prelude::*;

use crate::error::DagError;

verus! {

/// Handle of an input pin.
#[derive(Clone, Copy, Debug, PartialEq, Eq, Structural)]
pub struct IH {
    pub idx: usize,
}

/// Handle of an output pin.
#[derive(Clone, Copy, Debug, PartialEq, Eq, Structural)]
pub struct OH {
    pub idx: usize,
}

/// Handle of a link.
#[derive(Clone, Copy, Debug, PartialEq, Eq, Structural)]
pub struct LH {
    pub idx: usize,
}

/// Handle of a node.
#[derive(Clone, Copy, Debug, PartialEq, Eq, Structural)]
pub struct NH {
    pub idx: usize,
}

impl Default for IH {
    fn default() -> (r: Self)
        ensures
            r.idx == 0,
    {
        IH { idx: 0 }
    }
}

impl Default for OH {
    fn default() -> (r: Self)
        ensures
            r.idx == 0,
    {
        OH { idx: 0 }
    }
}

impl Default for LH {
    fn default() -> (r: Self)
        ensures
            r.idx == 0,
    {
        LH { idx: 0 }
    }
}

impl Default for NH {
    fn default() -> (r: Self)
        ensures
            r.idx == 0,
    {
        NH { idx: 0 }
    }
}

impl IH {
    /// The index of the input.
    pub fn index(&self) -> (r: usize)
        ensures
            r == self.idx,
    {
        self.idx
    }
}

impl OH {
    /// The index of the output.
    pub fn index(&self) -> (r: usize)
        ensures
            r == self.idx,
    {
        self.idx
    }
}

impl LH {
    /// The index of the link.
    pub fn index(&self) -> (r: usize)
        ensures
            r == self.idx,
    {
        self.idx
    }
}

impl NH {
    /// The index of the node.
    pub fn index(&self) -> (r: usize)
        ensures
            r == self.idx,
    {
        self.idx
    }
}

/// An input pin: its node, the link into it, and its neighbours among the
/// pins of the node.
#[derive(Clone, Copy, Debug)]
pub struct Input {
    pub node: NH,
    pub link: Option<LH>,
    pub prev: Option<IH>,
    pub next: Option<IH>,
    pub deleted: bool,
}

/// An output pin: its node, the first link leaving it, and its neighbours
/// among the pins of the node.
#[derive(Clone, Copy, Debug)]
pub struct Output {
    pub node: NH,
    pub link: Option<LH>,
    pub prev: Option<OH>,
    pub next: Option<OH>,
    pub deleted: bool,
}

/// A link from an output to an input, and its neighbours among the links
/// leaving the same output.
#[derive(Clone, Copy, Debug)]
pub struct Link {
    pub start: OH,
    pub end: IH,
    pub prev: Option<LH>,
    pub next: Option<LH>,
    pub deleted: bool,
}

/// A node: its first input pin and its first output pin.
#[derive(Clone, Copy, Debug)]
pub struct Node {
    pub input: Option<IH>,
    pub output: Option<OH>,
    pub deleted: bool,
}

/// The `k`-th entry of `s` as an input handle; `None` outside `s`.
pub open spec fn ih_at(s: Seq<int>, k: int) -> Option<IH> {
    if 0 <= k < s.len() {
        Some(IH { idx: s[k] as usize })
    } else {
        None
    }
}

/// The `k`-th entry of `s` as an output handle; `None` outside `s`.
pub open spec fn oh_at(s: Seq<int>, k: int) -> Option<OH> {
    if 0 <= k < s.len() {
        Some(OH { idx: s[k] as usize })
    } else {
        None
    }
}

/// The `k`-th entry of `s` as a link handle; `None` outside `s`.
pub open spec fn lh_at(s: Seq<int>, k: int) -> Option<LH> {
    if 0 <= k < s.len() {
        Some(LH { idx: s[k] as usize })
    } else {
        None
    }
}

/// The handle, if any, is below `n`.
pub open spec fn ih_below(h: Option<IH>, n: int) -> bool {
    match h {
        Some(x) => x.idx < n,
        None => true,
    }
}

/// The handle, if any, is below `n`.
pub open spec fn oh_below(h: Option<OH>, n: int) -> bool {
    match h {
        Some(x) => x.idx < n,
        None => true,
    }
}

/// The handle, if any, is below `n`.
pub open spec fn lh_below(h: Option<LH>, n: int) -> bool {
    match h {
        Some(x) => x.idx < n,
        None => true,
    }
}

/// `pins` is the chain of input pins of node `n`, linked through
/// `prev`/`next`.
pub open spec fn input_chain(inputs: Seq<Input>, n: int, pins: Seq<int>) -> bool {
    forall|k: int|
        0 <= k < pins.len() ==> {
            &&& 0 <= #[trigger] pins[k] < inputs.len()
            &&& inputs[pins[k]].node.idx == n
            &&& inputs[pins[k]].prev == ih_at(pins, k - 1)
            &&& inputs[pins[k]].next == ih_at(pins, k + 1)
        }
}

/// `pins` is the chain of output pins of node `n`, linked through
/// `prev`/`next`.
pub open spec fn output_chain(outputs: Seq<Output>, n: int, pins: Seq<int>) -> bool {
    forall|k: int|
        0 <= k < pins.len() ==> {
            &&& 0 <= #[trigger] pins[k] < outputs.len()
            &&& outputs[pins[k]].node.idx == n
            &&& outputs[pins[k]].prev == oh_at(pins, k - 1)
            &&& outputs[pins[k]].next == oh_at(pins, k + 1)
        }
}

/// `fan` is the chain of live links leaving output `o`, linked through
/// `prev`/`next`, and `pos` gives each of them its place in the chain.
pub open spec fn link_chain(links: Seq<Link>, o: int, fan: Seq<int>, pos: Seq<int>) -> bool {
    forall|k: int|
        0 <= k < fan.len() ==> {
            &&& 0 <= #[trigger] fan[k] < links.len()
            &&& !links[fan[k]].deleted
            &&& links[fan[k]].start.idx == o
            &&& pos[fan[k]] == k
            &&& links[fan[k]].prev == lh_at(fan, k - 1)
            &&& links[fan[k]].next == lh_at(fan, k + 1)
        }
}

/// Moves the entries not flagged deleted to the front by swapping the first
/// flagged entry with the last unflagged one until they meet. Returns the
/// number of unflagged entries and the swaps made, as a map from each new
/// position to the old one; each swap exchanges a flagged and an unflagged
/// entry, so the map is its own inverse.
fn compact<T: Copy>(v: &mut Vec<T>, flags: &mut Vec<bool>) -> (r: (usize, Vec<usize>))
    requires
        old(v)@.len() == old(flags)@.len(),
    ensures
        ({
            let (m, map) = r;
            let n = old(v)@.len();
            &&& final(v)@.len() == n
            &&& map@.len() == n
            &&& m <= n
            &&& forall|k: int| 0 <= k < n ==> (#[trigger] map@[k]) < n
            &&& forall|k: int| 0 <= k < n ==> map@[map@[k] as int] == k
            &&& forall|k: int| 0 <= k < n ==> #[trigger] final(v)@[k] == old(v)@[map@[k] as int]
            &&& forall|k: int| 0 <= k < n ==> (k < m) == !old(flags)@[#[trigger] map@[k] as int]
            &&& forall|k: int|
                0 <= k < n && map@[k] != k ==> old(flags)@[#[trigger] map@[k] as int] != old(flags)@[k]
        }),
{
    let n = v.len();
    let ghost v0 = v@;
    let ghost f0 = flags@;
    let mut map: Vec<usize> = Vec::new();
    let mut k: usize = 0;
    while k < n
        invariant
            0 <= k <= n,
            map@.len() == k,
            forall|j: int| 0 <= j < k ==> map@[j] == j,
        decreases n - k,
    {
        map.push(k);
        k = k + 1;
    }
    if n == 0 {
        return (0, map);
    }
    let mut left: usize = 0;
    let mut right: usize = n - 1;
    let newlen: usize;
    loop
        invariant_except_break
            0 <= left <= right < n,
            v@.len() == n,
            flags@.len() == n,
            map@.len() == n,
            forall|j: int| 0 <= j < n ==> (#[trigger] map@[j]) < n,
            forall|j: int| 0 <= j < n ==> map@[map@[j] as int] == j,
            forall|j: int| 0 <= j < n ==> #[trigger] v@[j] == v0[map@[j] as int],
            forall|j: int| 0 <= j < n ==> #[trigger] flags@[j] == f0[map@[j] as int],
            forall|j: int| 0 <= j < n && map@[j] != j ==> #[trigger] f0[map@[j] as int] != f0[j],
            forall|j: int| left < j < right ==> #[trigger] map@[j] == j,
            left < right && flags@[left as int] ==> map@[left as int] == left,
            left < right && !flags@[right as int] ==> map@[right as int] == right,
            forall|j: int| 0 <= j < left ==> !#[trigger] flags@[j],
            forall|j: int| right < j < n ==> #[trigger] flags@[j],
        ensures
            newlen <= n,
            v@.len() == n,
            map@.len() == n,
            forall|j: int| 0 <= j < n ==> (#[trigger] map@[j]) < n,
            forall|j: int| 0 <= j < n ==> map@[map@[j] as int] == j,
            forall|j: int| 0 <= j < n ==> #[trigger] v@[j] == v0[map@[j] as int],
            forall|j: int| 0 <= j < n ==> (j < newlen) == !f0[#[trigger] map@[j] as int],
            forall|j: int| 0 <= j < n && map@[j] != j ==> #[trigger] f0[map@[j] as int] != f0[j],
        decreases 2 * (right - left) + (if flags@[left as int] {
            1int
        } else {
            0int
        }),
    {
        let ghost m0: int = 2 * (right - left) + (if flags@[left as int] {
            1int
        } else {
            0int
        });
        while !flags[left] && left < right
            invariant
                0 <= left <= right < n,
                flags@.len() == n,
                map@.len() == n,
                forall|j: int| left < j < right ==> #[trigger] map@[j] == j,
                left < right && flags@[left as int] ==> map@[left as int] == left,
                forall|j: int| 0 <= j < left ==> !#[trigger] flags@[j],
                2 * (right - left) + (if flags@[left as int] {
                    1int
                } else {
                    0int
                }) <= m0,
            decreases right - left,
        {
            left = left + 1;
        }
        while flags[right] && left < right
            invariant
                0 <= left <= right < n,
                flags@.len() == n,
                map@.len() == n,
                forall|j: int| left < j < right ==> #[trigger] map@[j] == j,
                left < right && !flags@[right as int] ==> map@[right as int] == right,
                forall|j: int| right < j < n ==> #[trigger] flags@[j],
                2 * (right - left) + (if flags@[left as int] {
                    1int
                } else {
                    0int
                }) <= m0,
            decreases right - left,
        {
            right = right - 1;
        }
        if left >= right {
            newlen = if flags[left] {
                left
            } else {
                left + 1
            };
            assert forall|j: int| 0 <= j < n implies (j < newlen) == !f0[#[trigger] map@[j] as int] by {
                assert(flags@[j] == f0[map@[j] as int]);
            }
            break;
        }
        // Swap the deleted and the live entry.
        let tv = v[left];
        let rv = v[right];
        v.set(left, rv);
        v.set(right, tv);
        flags.set(left, false);
        flags.set(right, true);
        map.set(left, right);
        map.set(right, left);
    }
    (newlen, map)
}

/// The link handle moved through `map`.
pub open spec fn relink(h: Option<LH>, map: Seq<usize>) -> Option<LH> {
    match h {
        Some(x) => Some(LH { idx: map[x.idx as int] }),
        None => None,
    }
}

fn input_flags(v: &Vec<Input>) -> (r: Vec<bool>)
    ensures
        r@.len() == v@.len(),
        forall|k: int| 0 <= k < v@.len() ==> #[trigger] r@[k] == v@[k].deleted,
{
    let mut r: Vec<bool> = Vec::new();
    let mut k: usize = 0;
    while k < v.len()
        invariant
            0 <= k <= v@.len(),
            r@.len() == k,
            forall|j: int| 0 <= j < k ==> #[trigger] r@[j] == v@[j].deleted,
        decreases v@.len() - k,
    {
        r.push(v[k].deleted);
        k = k + 1;
    }
    r
}

fn output_flags(v: &Vec<Output>) -> (r: Vec<bool>)
    ensures
        r@.len() == v@.len(),
        forall|k: int| 0 <= k < v@.len() ==> #[trigger] r@[k] == v@[k].deleted,
{
    let mut r: Vec<bool> = Vec::new();
    let mut k: usize = 0;
    while k < v.len()
        invariant
            0 <= k <= v@.len(),
            r@.len() == k,
            forall|j: int| 0 <= j < k ==> #[trigger] r@[j] == v@[j].deleted,
        decreases v@.len() - k,
    {
        r.push(v[k].deleted);
        k = k + 1;
    }
    r
}

fn link_flags(v: &Vec<Link>) -> (r: Vec<bool>)
    ensures
        r@.len() == v@.len(),
        forall|k: int| 0 <= k < v@.len() ==> #[trigger] r@[k] == v@[k].deleted,
{
    let mut r: Vec<bool> = Vec::new();
    let mut k: usize = 0;
    while k < v.len()
        invariant
            0 <= k <= v@.len(),
            r@.len() == k,
            forall|j: int| 0 <= j < k ==> #[trigger] r@[j] == v@[j].deleted,
        decreases v@.len() - k,
    {
        r.push(v[k].deleted);
        k = k + 1;
    }
    r
}

fn node_flags(v: &Vec<Node>) -> (r: Vec<bool>)
    ensures
        r@.len() == v@.len(),
        forall|k: int| 0 <= k < v@.len() ==> #[trigger] r@[k] == v@[k].deleted,
{
    let mut r: Vec<bool> = Vec::new();
    let mut k: usize = 0;
    while k < v.len()
        invariant
            0 <= k <= v@.len(),
            r@.len() == k,
            forall|j: int| 0 <= j < k ==> #[trigger] r@[j] == v@[j].deleted,
        decreases v@.len() - k,
    {
        r.push(v[k].deleted);
        k = k + 1;
    }
    r
}

fn map_ih(h: Option<IH>, map: &Vec<usize>) -> (r: Option<IH>)
    requires
        ih_below(h, map@.len() as int),
    ensures
        r == match h {
            Some(x) => Some(IH { idx: map@[x.idx as int] }),
            None => None,
        },
{
    match h {
        Some(x) => Some(IH { idx: map[x.idx] }),
        None => None,
    }
}

fn map_oh(h: Option<OH>, map: &Vec<usize>) -> (r: Option<OH>)
    requires
        oh_below(h, map@.len() as int),
    ensures
        r == match h {
            Some(x) => Some(OH { idx: map@[x.idx as int] }),
            None => None,
        },
{
    match h {
        Some(x) => Some(OH { idx: map[x.idx] }),
        None => None,
    }
}

fn map_lh(h: Option<LH>, map: &Vec<usize>) -> (r: Option<LH>)
    requires
        lh_below(h, map@.len() as int),
    ensures
        r == relink(h, map@),
{
    match h {
        Some(x) => Some(LH { idx: map[x.idx] }),
        None => None,
    }
}

/// A compaction of entries none of which was flagged moved nothing.
proof fn lemma_compact_identity(n: int, m: int, map: Seq<usize>, flags: Seq<bool>)
    requires
        map.len() == n,
        flags.len() == n,
        0 <= m <= n,
        forall|k: int| 0 <= k < n ==> (#[trigger] map[k]) < n,
        forall|k: int| 0 <= k < n ==> (k < m) == !flags[#[trigger] map[k] as int],
        forall|k: int| 0 <= k < n && map[k] != k ==> flags[#[trigger] map[k] as int] != flags[k],
        forall|k: int| 0 <= k < n ==> !#[trigger] flags[k],
    ensures
        m == n,
        forall|k: int| 0 <= k < n ==> #[trigger] map[k] == k,
{
    assert forall|k: int| 0 <= k < n implies #[trigger] map[k] == k by {
        assert(!flags[map[k] as int]);
        assert(!flags[k]);
    }
    if n > 0 {
        assert(!flags[map[n - 1] as int]);
    }
}

/// A directed graph of nodes, pins and links.
pub struct Graph {
    inputs: Vec<Input>,
    outputs: Vec<Output>,
    links: Vec<Link>,
    nodes: Vec<Node>,
    /// The input pins of each node, in order.
    node_ins: Ghost<Seq<Seq<int>>>,
    /// The output pins of each node, in order.
    node_outs: Ghost<Seq<Seq<int>>>,
    /// The live links leaving each output, in order.
    fans: Ghost<Seq<Seq<int>>>,
    /// The place of each live link among the links leaving its output.
    link_pos: Ghost<Seq<int>>,
    /// The place of each input pin among the input pins of its node.
    in_pos: Ghost<Seq<int>>,
    /// The place of each output pin among the output pins of its node.
    out_pos: Ghost<Seq<int>>,
}

impl Default for Graph {
    fn default() -> (r: Self)
        ensures
            r.wf(),
            r.input_seq().len() == 0,
            r.output_seq().len() == 0,
            r.link_seq().len() == 0,
            r.node_seq().len() == 0,
    {
        Graph::empty()
    }
}

impl Graph {
    pub closed spec fn input_seq(&self) -> Seq<Input> {
        self.inputs@
    }

    pub closed spec fn output_seq(&self) -> Seq<Output> {
        self.outputs@
    }

    pub closed spec fn link_seq(&self) -> Seq<Link> {
        self.links@
    }

    pub closed spec fn node_seq(&self) -> Seq<Node> {
        self.nodes@
    }

    /// The input pins of node `n`, in order.
    pub closed spec fn input_pins(&self, n: int) -> Seq<int> {
        self.node_ins@[n]
    }

    /// The output pins of node `n`, in order.
    pub closed spec fn output_pins(&self, n: int) -> Seq<int> {
        self.node_outs@[n]
    }

    /// The live links leaving output `o`, in the order they were made.
    pub closed spec fn fanout(&self, o: int) -> Seq<int> {
        self.fans@[o]
    }

    /// The place of live link `l` in the fan-out of its output.
    pub closed spec fn fanout_index(&self, l: int) -> int {
        self.link_pos@[l]
    }

    /// The output that feeds input `i`, if a link ends there.
    pub open spec fn source_of(&self, i: int) -> Option<OH> {
        match self.input_seq()[i].link {
            Some(l) => Some(self.link_seq()[l.idx as int].start),
            None => None,
        }
    }

    /// Every handle stored in the graph points inside it; pins and nodes are
    /// never deleted; the pins of a node and the live links of an output
    /// form well-linked chains; every live link sits in the chain of its
    /// output and is the link of its input, and an input's link is live and
    /// ends there; and every pin sits in the chain of its node.
    pub closed spec fn wf(&self) -> bool {
        self.wf_structure() && self.pins_placed()
    }

    /// Every pin sits in the chain of its node, at the place recorded for it.
    #[verifier::opaque]
    closed spec fn pins_placed(&self) -> bool {
        &&& self.in_pos@.len() == self.inputs@.len()
        &&& self.out_pos@.len() == self.outputs@.len()
        &&& forall|i: int|
            0 <= i < self.inputs@.len() ==> {
                let pins = self.node_ins@[self.inputs@[i].node.idx as int];
                &&& 0 <= #[trigger] self.in_pos@[i] < pins.len()
                &&& pins[self.in_pos@[i]] == i
            }
        &&& forall|o: int|
            0 <= o < self.outputs@.len() ==> {
                let pins = self.node_outs@[self.outputs@[o].node.idx as int];
                &&& 0 <= #[trigger] self.out_pos@[o] < pins.len()
                &&& pins[self.out_pos@[o]] == o
            }
    }

    /// The placement of pins carries over to a graph whose pins belong to
    /// the same nodes, whose nodes have the same chains, and which records
    /// the same places.
    proof fn lemma_placed_transfer(&self, g: Graph)
        requires
            g.pins_placed(),
            self.inputs@.len() == g.inputs@.len(),
            self.outputs@.len() == g.outputs@.len(),
            forall|i: int| 0 <= i < g.inputs@.len() ==> (#[trigger] self.inputs@[i]).node == g.inputs@[i].node,
            forall|o: int| 0 <= o < g.outputs@.len() ==> (#[trigger] self.outputs@[o]).node == g.outputs@[o].node,
            self.node_ins == g.node_ins,
            self.node_outs == g.node_outs,
            self.in_pos == g.in_pos,
            self.out_pos == g.out_pos,
        ensures
            self.pins_placed(),
    {
        reveal(Graph::pins_placed);
        assert forall|i: int| 0 <= i < self.inputs@.len() implies {
            let pins = self.node_ins@[self.inputs@[i].node.idx as int];
            &&& 0 <= #[trigger] self.in_pos@[i] < pins.len()
            &&& pins[self.in_pos@[i]] == i
        } by {
            assert(self.inputs@[i].node == g.inputs@[i].node);
        }
        assert forall|o: int| 0 <= o < self.outputs@.len() implies {
            let pins = self.node_outs@[self.outputs@[o].node.idx as int];
            &&& 0 <= #[trigger] self.out_pos@[o] < pins.len()
            &&& pins[self.out_pos@[o]] == o
        } by {
            assert(self.outputs@[o].node == g.outputs@[o].node);
        }
    }

    /// The handles, chains and links are consistent (see `wf`).
    #[verifier::opaque]
    closed spec fn wf_structure(&self) -> bool {
        let ins = self.inputs@;
        let outs = self.outputs@;
        let lks = self.links@;
        let nds = self.nodes@;
        &&& ins.len() <= usize::MAX
        &&& outs.len() <= usize::MAX
        &&& lks.len() <= usize::MAX
        &&& nds.len() <= usize::MAX
        &&& self.node_ins@.len() == nds.len()
        &&& self.node_outs@.len() == nds.len()
        &&& self.fans@.len() == outs.len()
        &&& self.link_pos@.len() == lks.len()
        &&& forall|i: int|
            0 <= i < ins.len() ==> {
                &&& (#[trigger] ins[i]).node.idx < nds.len()
                &&& !ins[i].deleted
                &&& ih_below(ins[i].prev, ins.len() as int)
                &&& ih_below(ins[i].next, ins.len() as int)
                &&& match ins[i].link {
                    Some(l) => l.idx < lks.len() && !lks[l.idx as int].deleted && lks[l.idx as int].end.idx == i,
                    None => true,
                }
            }
        &&& forall|o: int|
            0 <= o < outs.len() ==> {
                &&& (#[trigger] outs[o]).node.idx < nds.len()
                &&& !outs[o].deleted
                &&& oh_below(outs[o].prev, outs.len() as int)
                &&& oh_below(outs[o].next, outs.len() as int)
                &&& outs[o].link == lh_at(self.fans@[o], 0)
                &&& link_chain(lks, o, self.fans@[o], self.link_pos@)
            }
        &&& forall|l: int|
            0 <= l < lks.len() ==> {
                &&& (#[trigger] lks[l]).start.idx < outs.len()
                &&& lks[l].end.idx < ins.len()
                &&& lh_below(lks[l].prev, lks.len() as int)
                &&& lh_below(lks[l].next, lks.len() as int)
                &&& !lks[l].deleted ==> {
                    &&& 0 <= self.link_pos@[l] < self.fans@[lks[l].start.idx as int].len()
                    &&& self.fans@[lks[l].start.idx as int][self.link_pos@[l]] == l
                    &&& ins[lks[l].end.idx as int].link == Some(LH { idx: l as usize })
                }
            }
        &&& forall|n: int|
            0 <= n < nds.len() ==> {
                &&& !(#[trigger] nds[n]).deleted
                &&& nds[n].input == ih_at(self.node_ins@[n], 0)
                &&& nds[n].output == oh_at(self.node_outs@[n], 0)
                &&& input_chain(ins, n, self.node_ins@[n])
                &&& output_chain(outs, n, self.node_outs@[n])
            }
    }

    /// Lengths and ranges that every well-formed graph has.
    proof fn lemma_wf_facts(&self)
        requires
            self.wf(),
        ensures
            self.inputs@.len() <= usize::MAX,
            self.outputs@.len() <= usize::MAX,
            self.links@.len() <= usize::MAX,
            self.nodes@.len() <= usize::MAX,
            self.node_ins@.len() == self.nodes@.len(),
            self.node_outs@.len() == self.nodes@.len(),
            self.fans@.len() == self.outputs@.len(),
            self.link_pos@.len() == self.links@.len(),
            forall|i: int|
                0 <= i < self.inputs@.len() ==> match (#[trigger] self.inputs@[i]).link {
                    Some(m) => m.idx < self.links@.len(),
                    None => true,
                },
            forall|l: int|
                0 <= l < self.links@.len() ==> (#[trigger] self.links@[l]).start.idx < self.outputs@.len()
                    && self.links@[l].end.idx < self.inputs@.len() && lh_below(self.links@[l].prev, self.links@.len() as int)
                    && lh_below(self.links@[l].next, self.links@.len() as int),
            forall|i: int|
                0 <= i < self.inputs@.len() ==> {
                    &&& (#[trigger] self.inputs@[i]).node.idx < self.nodes@.len()
                    &&& !self.inputs@[i].deleted
                    &&& ih_below(self.inputs@[i].prev, self.inputs@.len() as int)
                    &&& ih_below(self.inputs@[i].next, self.inputs@.len() as int)
                    &&& match self.inputs@[i].link {
                        Some(m) => !self.links@[m.idx as int].deleted && self.links@[m.idx as int].end.idx == i,
                        None => true,
                    }
                },
            forall|o: int|
                0 <= o < self.outputs@.len() ==> {
                    &&& (#[trigger] self.outputs@[o]).node.idx < self.nodes@.len()
                    &&& !self.outputs@[o].deleted
                    &&& oh_below(self.outputs@[o].prev, self.outputs@.len() as int)
                    &&& oh_below(self.outputs@[o].next, self.outputs@.len() as int)
                    &&& lh_below(self.outputs@[o].link, self.links@.len() as int)
                    &&& match self.outputs@[o].link {
                        Some(m) => !self.links@[m.idx as int].deleted,
                        None => true,
                    }
                },
            forall|n: int|
                0 <= n < self.nodes@.len() ==> {
                    &&& !(#[trigger] self.nodes@[n]).deleted
                    &&& ih_below(self.nodes@[n].input, self.inputs@.len() as int)
                    &&& oh_below(self.nodes@[n].output, self.outputs@.len() as int)
                },
    {
        reveal(Graph::wf_structure);
        assert forall|o: int| 0 <= o < self.outputs@.len() implies {
            &&& lh_below(self.outputs@[o].link, self.links@.len() as int)
            &&& match self.outputs@[o].link {
                Some(m) => !self.links@[m.idx as int].deleted,
                None => true,
            }
        } by {
            let fan = self.fans@[o];
            assert(link_chain(self.links@, o, fan, self.link_pos@));
            if fan.len() > 0 {
                assert(0 <= fan[0] < self.links@.len());
            }
        }
        assert forall|n: int| 0 <= n < self.nodes@.len() implies {
            &&& ih_below(self.nodes@[n].input, self.inputs@.len() as int)
            &&& oh_below(self.nodes@[n].output, self.outputs@.len() as int)
        } by {
            let pi = self.node_ins@[n];
            let po = self.node_outs@[n];
            assert(input_chain(self.inputs@, n, pi));
            assert(output_chain(self.outputs@, n, po));
            if pi.len() > 0 {
                assert(0 <= pi[0] < self.inputs@.len());
            }
            if po.len() > 0 {
                assert(0 <= po[0] < self.outputs@.len());
            }
        }
    }

    /// The place of input pin `i` among the input pins of its node.
    pub closed spec fn input_place(&self, i: int) -> int {
        self.in_pos@[i]
    }

    /// The place of output pin `o` among the output pins of its node.
    pub closed spec fn output_place(&self, o: int) -> int {
        self.out_pos@[o]
    }

    /// No input pin occurs twice in a chain.
    proof fn lemma_input_chain_distinct(ins: Seq<Input>, n: int, pins: Seq<int>, a: int, b: int)
        requires
            input_chain(ins, n, pins),
            ins.len() <= usize::MAX,
            0 <= a < b < pins.len(),
        ensures
            pins[a] != pins[b],
        decreases a,
    {
        if pins[a] == pins[b] {
            assert(ins[pins[a]].prev == ih_at(pins, a - 1));
            assert(ins[pins[b]].prev == ih_at(pins, b - 1));
            if a > 0 {
                assert(0 <= pins[a - 1] < ins.len() && 0 <= pins[b - 1] < ins.len());
                assert(pins[a - 1] == pins[b - 1]);
                Self::lemma_input_chain_distinct(ins, n, pins, a - 1, b - 1);
            }
        }
    }

    /// No output pin occurs twice in a chain.
    proof fn lemma_output_chain_distinct(outs: Seq<Output>, n: int, pins: Seq<int>, a: int, b: int)
        requires
            output_chain(outs, n, pins),
            outs.len() <= usize::MAX,
            0 <= a < b < pins.len(),
        ensures
            pins[a] != pins[b],
        decreases a,
    {
        if pins[a] == pins[b] {
            assert(outs[pins[a]].prev == oh_at(pins, a - 1));
            assert(outs[pins[b]].prev == oh_at(pins, b - 1));
            if a > 0 {
                assert(0 <= pins[a - 1] < outs.len() && 0 <= pins[b - 1] < outs.len());
                assert(pins[a - 1] == pins[b - 1]);
                Self::lemma_output_chain_distinct(outs, n, pins, a - 1, b - 1);
            }
        }
    }

    /// In a well-formed graph the link field of each output is the first
    /// live link leaving it, and the live links leaving an output are chained
    /// through `prev`/`next` in the order of its fan-out; every live link
    /// stands in the fan-out of its output at its recorded place.
    pub proof fn lemma_fanout_chain(&self)
        requires
            self.wf(),
        ensures
            forall|o: int|
                0 <= o < self.output_seq().len() ==> (#[trigger] self.output_seq()[o]).link == lh_at(self.fanout(o), 0),
            forall|o: int, k: int|
                0 <= o < self.output_seq().len() && 0 <= k < self.fanout(o).len() ==> {
                    &&& 0 <= #[trigger] self.fanout(o)[k] < self.link_seq().len()
                    &&& !self.link_seq()[self.fanout(o)[k]].deleted
                    &&& self.link_seq()[self.fanout(o)[k]].start.idx == o
                    &&& self.fanout_index(self.fanout(o)[k]) == k
                    &&& self.link_seq()[self.fanout(o)[k]].prev == lh_at(self.fanout(o), k - 1)
                    &&& self.link_seq()[self.fanout(o)[k]].next == lh_at(self.fanout(o), k + 1)
                },
            forall|l: int|
                0 <= l < self.link_seq().len() && !(#[trigger] self.link_seq()[l]).deleted ==> {
                    &&& 0 <= self.fanout_index(l) < self.fanout(self.link_seq()[l].start.idx as int).len()
                    &&& self.fanout(self.link_seq()[l].start.idx as int)[self.fanout_index(l)] == l
                },
    {
        reveal(Graph::wf_structure);
        assert forall|o: int, k: int|
            0 <= o < self.output_seq().len() && 0 <= k < self.fanout(o).len() implies {
                &&& 0 <= #[trigger] self.fanout(o)[k] < self.link_seq().len()
                &&& !self.link_seq()[self.fanout(o)[k]].deleted
                &&& self.link_seq()[self.fanout(o)[k]].start.idx == o
                &&& self.fanout_index(self.fanout(o)[k]) == k
                &&& self.link_seq()[self.fanout(o)[k]].prev == lh_at(self.fanout(o), k - 1)
                &&& self.link_seq()[self.fanout(o)[k]].next == lh_at(self.fanout(o), k + 1)
            } by {
            assert(self.outputs@[o].link == lh_at(self.fans@[o], 0));
            assert(link_chain(self.links@, o, self.fans@[o], self.link_pos@));
            assert(self.fans@[o][k] == self.fanout(o)[k]);
        }
        assert forall|o: int| 0 <= o < self.output_seq().len() implies (#[trigger] self.output_seq()[o]).link == lh_at(
            self.fanout(o),
            0,
        ) by {
            assert(self.outputs@[o].link == lh_at(self.fans@[o], 0));
        }
    }

    /// In a well-formed graph every pin belongs to the node whose chain holds
    /// it, at its recorded place; every link joins pins of the graph, and
    /// the link of an input is a live link ending there.
    pub proof fn lemma_pins(&self)
        requires
            self.wf(),
        ensures
            forall|n: int, k: int|
                0 <= n < self.node_seq().len() && 0 <= k < self.input_pins(n).len() ==> {
                    &&& 0 <= #[trigger] self.input_pins(n)[k] < self.input_seq().len()
                    &&& self.input_seq()[self.input_pins(n)[k]].node.idx == n
                    &&& self.input_place(self.input_pins(n)[k]) == k
                },
            forall|n: int, k: int|
                0 <= n < self.node_seq().len() && 0 <= k < self.output_pins(n).len() ==> {
                    &&& 0 <= #[trigger] self.output_pins(n)[k] < self.output_seq().len()
                    &&& self.output_seq()[self.output_pins(n)[k]].node.idx == n
                    &&& self.output_place(self.output_pins(n)[k]) == k
                },
            forall|i: int|
                0 <= i < self.input_seq().len() ==> {
                    let n = (#[trigger] self.input_seq()[i]).node.idx as int;
                    &&& n < self.node_seq().len()
                    &&& 0 <= self.input_place(i) < self.input_pins(n).len()
                    &&& self.input_pins(n)[self.input_place(i)] == i
                    &&& match self.input_seq()[i].link {
                        Some(m) => m.idx < self.link_seq().len() && !self.link_seq()[m.idx as int].deleted
                            && self.link_seq()[m.idx as int].end.idx == i,
                        None => true,
                    }
                },
            forall|o: int|
                0 <= o < self.output_seq().len() ==> {
                    let n = (#[trigger] self.output_seq()[o]).node.idx as int;
                    &&& n < self.node_seq().len()
                    &&& 0 <= self.output_place(o) < self.output_pins(n).len()
                    &&& self.output_pins(n)[self.output_place(o)] == o
                },
            forall|l: int|
                0 <= l < self.link_seq().len() ==> {
                    &&& (#[trigger] self.link_seq()[l]).start.idx < self.output_seq().len()
                    &&& self.link_seq()[l].end.idx < self.input_seq().len()
                    &&& !self.link_seq()[l].deleted ==> self.input_seq()[self.link_seq()[l].end.idx as int].link
                        == Some(LH { idx: l as usize })
                },
            forall|i: int| 0 <= i < self.input_seq().len() ==> !(#[trigger] self.input_seq()[i]).deleted,
            forall|o: int| 0 <= o < self.output_seq().len() ==> !(#[trigger] self.output_seq()[o]).deleted,
            forall|n: int| 0 <= n < self.node_seq().len() ==> !(#[trigger] self.node_seq()[n]).deleted,
            self.input_seq().len() <= usize::MAX,
            self.output_seq().len() <= usize::MAX,
            self.link_seq().len() <= usize::MAX,
            self.node_seq().len() <= usize::MAX,
    {
        reveal(Graph::wf_structure);
        reveal(Graph::pins_placed);
        assert forall|n: int, k: int|
            0 <= n < self.node_seq().len() && 0 <= k < self.input_pins(n).len() implies {
                &&& 0 <= #[trigger] self.input_pins(n)[k] < self.input_seq().len()
                &&& self.input_seq()[self.input_pins(n)[k]].node.idx == n
                &&& self.input_place(self.input_pins(n)[k]) == k
            } by {
            let pins = self.node_ins@[n];
            assert(!self.nodes@[n].deleted);
            assert(input_chain(self.inputs@, n, pins));
            let i = pins[k];
            assert(0 <= i < self.inputs@.len());
            let q = self.in_pos@[i];
            assert(0 <= q < pins.len() && pins[q] == i);
            if q < k {
                Self::lemma_input_chain_distinct(self.inputs@, n, pins, q, k);
            } else if k < q {
                Self::lemma_input_chain_distinct(self.inputs@, n, pins, k, q);
            }
        }
        assert forall|n: int, k: int|
            0 <= n < self.node_seq().len() && 0 <= k < self.output_pins(n).len() implies {
                &&& 0 <= #[trigger] self.output_pins(n)[k] < self.output_seq().len()
                &&& self.output_seq()[self.output_pins(n)[k]].node.idx == n
                &&& self.output_place(self.output_pins(n)[k]) == k
            } by {
            let pins = self.node_outs@[n];
            assert(!self.nodes@[n].deleted);
            assert(output_chain(self.outputs@, n, pins));
            let o = pins[k];
            assert(0 <= o < self.outputs@.len());
            let q = self.out_pos@[o];
            assert(0 <= q < pins.len() && pins[q] == o);
            if q < k {
                Self::lemma_output_chain_distinct(self.outputs@, n, pins, q, k);
            } else if k < q {
                Self::lemma_output_chain_distinct(self.outputs@, n, pins, k, q);
            }
        }
        assert forall|i: int| 0 <= i < self.input_seq().len() implies {
            let n = (#[trigger] self.input_seq()[i]).node.idx as int;
            &&& n < self.node_seq().len()
            &&& 0 <= self.input_place(i) < self.input_pins(n).len()
            &&& self.input_pins(n)[self.input_place(i)] == i
            &&& match self.input_seq()[i].link {
                Some(m) => m.idx < self.link_seq().len() && !self.link_seq()[m.idx as int].deleted
                    && self.link_seq()[m.idx as int].end.idx == i,
                None => true,
            }
        } by {
            assert(!self.inputs@[i].deleted);
        }
        assert forall|o: int| 0 <= o < self.output_seq().len() implies {
            let n = (#[trigger] self.output_seq()[o]).node.idx as int;
            &&& n < self.node_seq().len()
            &&& 0 <= self.output_place(o) < self.output_pins(n).len()
            &&& self.output_pins(n)[self.output_place(o)] == o
        } by {
            assert(!self.outputs@[o].deleted);
        }
    }

    fn empty() -> (r: Self)
        ensures
            r.wf(),
            r.input_seq().len() == 0,
            r.output_seq().len() == 0,
            r.link_seq().len() == 0,
            r.node_seq().len() == 0,
    {
        proof {
            reveal(Graph::wf_structure);
            reveal(Graph::pins_placed);
        }
        Graph {
            inputs: Vec::new(),
            outputs: Vec::new(),
            links: Vec::new(),
            nodes: Vec::new(),
            node_ins: Ghost(Seq::empty()),
            node_outs: Ghost(Seq::empty()),
            fans: Ghost(Seq::empty()),
            link_pos: Ghost(Seq::empty()),
            in_pos: Ghost(Seq::empty()),
            out_pos: Ghost(Seq::empty()),
        }
    }

    /// An empty graph with room for the given numbers of elements.
    pub fn with_capacity(n_inputs: usize, n_outputs: usize, n_links: usize, n_nodes: usize) -> (r: Self)
        ensures
            r.wf(),
            r.input_seq().len() == 0,
            r.output_seq().len() == 0,
            r.link_seq().len() == 0,
            r.node_seq().len() == 0,
    {
        proof {
            reveal(Graph::wf_structure);
            reveal(Graph::pins_placed);
        }
        Graph {
            inputs: Vec::with_capacity(n_inputs),
            outputs: Vec::with_capacity(n_outputs),
            links: Vec::with_capacity(n_links),
            nodes: Vec::with_capacity(n_nodes),
            node_ins: Ghost(Seq::empty()),
            node_outs: Ghost(Seq::empty()),
            fans: Ghost(Seq::empty()),
            link_pos: Ghost(Seq::empty()),
            in_pos: Ghost(Seq::empty()),
            out_pos: Ghost(Seq::empty()),
        }
    }

    /// The input pins, by index.
    pub fn inputs(&self) -> (r: &[Input])
        ensures
            r@ == self.input_seq(),
    {
        self.inputs.as_slice()
    }

    /// The output pins, by index.
    pub fn outputs(&self) -> (r: &[Output])
        ensures
            r@ == self.output_seq(),
    {
        self.outputs.as_slice()
    }

    /// The links, deleted ones included, by index.
    pub fn links(&self) -> (r: &[Link])
        ensures
            r@ == self.link_seq(),
    {
        self.links.as_slice()
    }

    /// The nodes, by index.
    pub fn nodes(&self) -> (r: &[Node])
        ensures
            r@ == self.node_seq(),
    {
        self.nodes.as_slice()
    }

    /// Reserves room for more elements; the graph is unchanged.
    pub fn reserve(&mut self, n_inputs: usize, n_outputs: usize, n_links: usize, n_nodes: usize) -> (r: Result<(), DagError>)
        requires
            old(self).wf(),
        ensures
            r is Ok,
            final(self).wf(),
            final(self).input_seq() == old(self).input_seq(),
            final(self).output_seq() == old(self).output_seq(),
            final(self).link_seq() == old(self).link_seq(),
            final(self).node_seq() == old(self).node_seq(),
    {
        self.inputs.reserve(n_inputs);
        self.outputs.reserve(n_outputs);
        self.links.reserve(n_links);
        self.nodes.reserve(n_nodes);
        proof {
            reveal(Graph::wf_structure);
            reveal(Graph::pins_placed);
        }
        Ok(())
    }

    /// Removes every element.
    pub fn clear(&mut self) -> (r: Result<(), DagError>)
        ensures
            r is Ok,
            final(self).wf(),
            final(self).input_seq().len() == 0,
            final(self).output_seq().len() == 0,
            final(self).link_seq().len() == 0,
            final(self).node_seq().len() == 0,
    {
        self.inputs.clear();
        self.outputs.clear();
        self.links.clear();
        self.nodes.clear();
        self.node_ins = Ghost(Seq::empty());
        self.node_outs = Ghost(Seq::empty());
        self.fans = Ghost(Seq::empty());
        self.link_pos = Ghost(Seq::empty());
        self.in_pos = Ghost(Seq::empty());
        self.out_pos = Ghost(Seq::empty());
        proof {
            reveal(Graph::wf_structure);
            reveal(Graph::pins_placed);
        }
        Ok(())
    }

    /// Adds a node with one input pin per entry of `input_handles` and one
    /// output pin per entry of `output_handles`, and writes the handles of
    /// the new pins into them, in order.
    pub fn push_node(&mut self, input_handles: &mut [IH], output_handles: &mut [OH]) -> (r: Result<NH, DagError>)
        requires
            old(self).wf(),
        ensures
            final(self).wf(),
            r == Ok::<NH, DagError>(NH { idx: old(self).node_seq().len() as usize }),
            final(input_handles)@.len() == old(input_handles)@.len(),
            final(output_handles)@.len() == old(output_handles)@.len(),
            forall|k: int|
                0 <= k < old(input_handles)@.len() ==> #[trigger] final(input_handles)@[k].idx
                    == old(self).input_seq().len() + k,
            forall|k: int|
                0 <= k < old(output_handles)@.len() ==> #[trigger] final(output_handles)@[k].idx
                    == old(self).output_seq().len() + k,
            final(self).node_seq() == old(self).node_seq().push(
                Node {
                    input: ih_at(
                        Seq::new(old(input_handles)@.len(), |k: int| old(self).input_seq().len() + k),
                        0,
                    ),
                    output: oh_at(
                        Seq::new(old(output_handles)@.len(), |k: int| old(self).output_seq().len() + k),
                        0,
                    ),
                    deleted: false,
                },
            ),
            final(self).input_seq().len() == old(self).input_seq().len() + old(input_handles)@.len(),
            final(self).output_seq().len() == old(self).output_seq().len() + old(output_handles)@.len(),
            final(self).input_seq().subrange(0, old(self).input_seq().len() as int) == old(self).input_seq(),
            final(self).output_seq().subrange(0, old(self).output_seq().len() as int) == old(self).output_seq(),
            final(self).link_seq() == old(self).link_seq(),
            final(self).input_pins(old(self).node_seq().len() as int) == Seq::new(
                old(input_handles)@.len(),
                |k: int| old(self).input_seq().len() + k,
            ),
            final(self).output_pins(old(self).node_seq().len() as int) == Seq::new(
                old(output_handles)@.len(),
                |k: int| old(self).output_seq().len() + k,
            ),
            forall|k: int|
                0 <= k < old(input_handles)@.len() ==> (#[trigger] final(self).input_seq()[old(self).input_seq().len() + k]).node.idx == old(self).node_seq().len() && final(self).input_seq()[old(self).input_seq().len() + k].link is None,
            forall|k: int|
                0 <= k < old(output_handles)@.len() ==> (#[trigger] final(self).output_seq()[old(self).output_seq().len() + k]).node.idx == old(self).node_seq().len() && final(self).output_seq()[old(self).output_seq().len() + k].link is None,
            forall|n: int|
                0 <= n < old(self).node_seq().len() ==> #[trigger] final(self).input_pins(n) == old(self).input_pins(n)
                    && final(self).output_pins(n) == old(self).output_pins(n),
            forall|o: int| 0 <= o < old(self).output_seq().len() ==> #[trigger] final(self).fanout(o) == old(self).fanout(o),
            forall|i: int| 0 <= i < old(self).input_seq().len() ==> #[trigger] final(self).source_of(i) == old(self).source_of(i),
    {
        let nh = NH { idx: self.nodes.len() };
        let in_base = self.inputs.len();
        let ni = input_handles.len();
        let ghost old_graph = *self;
        let ghost in_pins = Seq::new(ni as nat, |k: int| in_base + k);
        assert(old_graph.node_ins@.len() == old_graph.nodes@.len() && old_graph.node_outs@.len()
            == old_graph.nodes@.len() && old_graph.fans@.len() == old_graph.outputs@.len()) by {
            reveal(Graph::wf_structure);
        }
        let mut k: usize = 0;
        while k < ni
            invariant
                old_graph.wf(),
                ni == old(input_handles)@.len(),
                in_base == old_graph.inputs@.len(),
                nh.idx == old_graph.nodes@.len(),
                in_pins == Seq::new(ni as nat, |j: int| in_base + j),
                0 <= k <= ni,
                input_handles@.len() == ni,
                forall|j: int| 0 <= j < k ==> #[trigger] input_handles@[j].idx == in_base + j,
                self.inputs@.len() == in_base + k,
                self.inputs@.subrange(0, in_base as int) == old_graph.inputs@,
                forall|j: int|
                    0 <= j < k ==> #[trigger] self.inputs@[in_base + j] == (Input {
                        node: nh,
                        link: None,
                        prev: ih_at(in_pins, j - 1),
                        next: if j + 1 < k {
                            ih_at(in_pins, j + 1)
                        } else {
                            None
                        },
                        deleted: false,
                    }),
                self.outputs == old_graph.outputs,
                self.links == old_graph.links,
                self.nodes == old_graph.nodes,
                self.node_ins == old_graph.node_ins,
                self.node_outs == old_graph.node_outs,
                self.fans == old_graph.fans,
                self.link_pos == old_graph.link_pos,
            decreases ni - k,
        {
            let idx = self.inputs.len();
            input_handles[k] = IH { idx };
            let prev = if k > 0 {
                Some(IH { idx: idx - 1 })
            } else {
                None
            };
            self.inputs.push(Input { node: nh, link: None, prev, next: None, deleted: false });
            if k > 0 {
                let mut p = self.inputs[idx - 1];
                p.next = Some(IH { idx });
                self.inputs.set(idx - 1, p);
            }
            k = k + 1;
        }
        assert forall|j: int| 0 <= j < ni implies #[trigger] self.inputs@[in_base + j] == (Input {
            node: nh,
            link: None,
            prev: ih_at(in_pins, j - 1),
            next: ih_at(in_pins, j + 1),
            deleted: false,
        }) by {}
        let out_base = self.outputs.len();
        let no = output_handles.len();
        let ghost out_pins = Seq::new(no as nat, |k: int| out_base + k);
        let ghost mid_inputs = self.inputs@;
        let mut k: usize = 0;
        while k < no
            invariant
                old_graph.wf(),
                no == old(output_handles)@.len(),
                out_base == old_graph.outputs@.len(),
                nh.idx == old_graph.nodes@.len(),
                out_pins == Seq::new(no as nat, |j: int| out_base + j),
                0 <= k <= no,
                output_handles@.len() == no,
                forall|j: int| 0 <= j < k ==> #[trigger] output_handles@[j].idx == out_base + j,
                self.outputs@.len() == out_base + k,
                self.outputs@.subrange(0, out_base as int) == old_graph.outputs@,
                forall|j: int|
                    0 <= j < k ==> #[trigger] self.outputs@[out_base + j] == (Output {
                        node: nh,
                        link: None,
                        prev: oh_at(out_pins, j - 1),
                        next: if j + 1 < k {
                            oh_at(out_pins, j + 1)
                        } else {
                            None
                        },
                        deleted: false,
                    }),
                self.inputs@ == mid_inputs,
                self.links == old_graph.links,
                self.nodes == old_graph.nodes,
                self.node_ins == old_graph.node_ins,
                self.node_outs == old_graph.node_outs,
                self.fans == old_graph.fans,
                self.link_pos == old_graph.link_pos,
            decreases no - k,
        {
            let idx = self.outputs.len();
            output_handles[k] = OH { idx };
            let prev = if k > 0 {
                Some(OH { idx: idx - 1 })
            } else {
                None
            };
            self.outputs.push(Output { node: nh, link: None, prev, next: None, deleted: false });
            if k > 0 {
                let mut p = self.outputs[idx - 1];
                p.next = Some(OH { idx });
                self.outputs.set(idx - 1, p);
            }
            k = k + 1;
        }
        assert forall|j: int| 0 <= j < no implies #[trigger] self.outputs@[out_base + j] == (Output {
            node: nh,
            link: None,
            prev: oh_at(out_pins, j - 1),
            next: oh_at(out_pins, j + 1),
            deleted: false,
        }) by {}
        let first_in = if ni > 0 {
            Some(IH { idx: in_base })
        } else {
            None
        };
        let first_out = if no > 0 {
            Some(OH { idx: out_base })
        } else {
            None
        };
        self.nodes.push(Node { input: first_in, output: first_out, deleted: false });
        proof {
            self.node_ins@ = self.node_ins@.push(in_pins);
            self.node_outs@ = self.node_outs@.push(out_pins);
            self.fans@ = self.fans@ + Seq::new(no as nat, |j: int| Seq::<int>::empty());
            assert(ih_at(in_pins, 0) == first_in);
            assert(oh_at(out_pins, 0) == first_out);
            assert(self.nodes@.len() == self.nodes.len());
            assert(self.inputs@.len() == self.inputs.len());
            assert(self.outputs@.len() == self.outputs.len());
            self.in_pos@ = old_graph.in_pos@ + Seq::new(ni as nat, |j: int| j);
            self.out_pos@ = old_graph.out_pos@ + Seq::new(no as nat, |j: int| j);
            self.lemma_push_node_wf(old_graph, in_pins, out_pins);
            self.lemma_push_node_placed(old_graph, in_pins, out_pins);
        }
        Ok(nh)
    }

    /// The pins of a new node sit in its chain in order; the others keep
    /// their places.
    proof fn lemma_push_node_placed(&self, old_graph: Graph, in_pins: Seq<int>, out_pins: Seq<int>)
        requires
            old_graph.wf(),
            in_pins == Seq::new(in_pins.len(), |j: int| old_graph.inputs@.len() + j),
            out_pins == Seq::new(out_pins.len(), |j: int| old_graph.outputs@.len() + j),
            self.inputs@.len() == old_graph.inputs@.len() + in_pins.len(),
            self.inputs@.subrange(0, old_graph.inputs@.len() as int) == old_graph.inputs@,
            forall|j: int|
                0 <= j < in_pins.len() ==> (#[trigger] self.inputs@[old_graph.inputs@.len() + j]).node.idx
                    == old_graph.nodes@.len(),
            self.outputs@.len() == old_graph.outputs@.len() + out_pins.len(),
            self.outputs@.subrange(0, old_graph.outputs@.len() as int) == old_graph.outputs@,
            forall|j: int|
                0 <= j < out_pins.len() ==> (#[trigger] self.outputs@[old_graph.outputs@.len() + j]).node.idx
                    == old_graph.nodes@.len(),
            self.node_ins@ == old_graph.node_ins@.push(in_pins),
            self.node_outs@ == old_graph.node_outs@.push(out_pins),
            self.in_pos@ == old_graph.in_pos@ + Seq::new(in_pins.len(), |j: int| j),
            self.out_pos@ == old_graph.out_pos@ + Seq::new(out_pins.len(), |j: int| j),
        ensures
            self.pins_placed(),
    {
        reveal(Graph::pins_placed);
        reveal(Graph::wf_structure);
        let oi = old_graph.inputs@.len() as int;
        let oo = old_graph.outputs@.len() as int;
        let on = old_graph.nodes@.len() as int;
        assert forall|i: int| 0 <= i < self.inputs@.len() implies {
            let pins = self.node_ins@[self.inputs@[i].node.idx as int];
            &&& 0 <= #[trigger] self.in_pos@[i] < pins.len()
            &&& pins[self.in_pos@[i]] == i
        } by {
            if i < oi {
                assert(self.inputs@.subrange(0, oi)[i] == self.inputs@[i]);
                assert(old_graph.inputs@[i].node.idx < on);
                assert(self.in_pos@[i] == old_graph.in_pos@[i]);
            } else {
                assert(self.inputs@[oi + (i - oi)].node.idx == on);
                assert(self.in_pos@[i] == i - oi);
            }
        }
        assert forall|o: int| 0 <= o < self.outputs@.len() implies {
            let pins = self.node_outs@[self.outputs@[o].node.idx as int];
            &&& 0 <= #[trigger] self.out_pos@[o] < pins.len()
            &&& pins[self.out_pos@[o]] == o
        } by {
            if o < oo {
                assert(self.outputs@.subrange(0, oo)[o] == self.outputs@[o]);
                assert(old_graph.outputs@[o].node.idx < on);
                assert(self.out_pos@[o] == old_graph.out_pos@[o]);
            } else {
                assert(self.outputs@[oo + (o - oo)].node.idx == on);
                assert(self.out_pos@[o] == o - oo);
            }
        }
    }

    proof fn lemma_push_node_wf(&self, old_graph: Graph, in_pins: Seq<int>, out_pins: Seq<int>)
        requires
            old_graph.wf(),
            in_pins == Seq::new(in_pins.len(), |j: int| old_graph.inputs@.len() + j),
            out_pins == Seq::new(out_pins.len(), |j: int| old_graph.outputs@.len() + j),
            self.inputs@.len() == old_graph.inputs@.len() + in_pins.len(),
            self.inputs@.subrange(0, old_graph.inputs@.len() as int) == old_graph.inputs@,
            forall|j: int|
                0 <= j < in_pins.len() ==> #[trigger] self.inputs@[old_graph.inputs@.len() + j] == (Input {
                    node: NH { idx: old_graph.nodes@.len() as usize },
                    link: None,
                    prev: ih_at(in_pins, j - 1),
                    next: ih_at(in_pins, j + 1),
                    deleted: false,
                }),
            self.outputs@.len() == old_graph.outputs@.len() + out_pins.len(),
            self.outputs@.subrange(0, old_graph.outputs@.len() as int) == old_graph.outputs@,
            forall|j: int|
                0 <= j < out_pins.len() ==> #[trigger] self.outputs@[old_graph.outputs@.len() + j] == (Output {
                    node: NH { idx: old_graph.nodes@.len() as usize },
                    link: None,
                    prev: oh_at(out_pins, j - 1),
                    next: oh_at(out_pins, j + 1),
                    deleted: false,
                }),
            self.links@ == old_graph.links@,
            self.link_pos@ == old_graph.link_pos@,
            self.nodes@ == old_graph.nodes@.push(
                Node { input: ih_at(in_pins, 0), output: oh_at(out_pins, 0), deleted: false },
            ),
            self.node_ins@ == old_graph.node_ins@.push(in_pins),
            self.node_outs@ == old_graph.node_outs@.push(out_pins),
            self.fans@ == old_graph.fans@ + Seq::new(out_pins.len(), |j: int| Seq::<int>::empty()),
            self.nodes@.len() <= usize::MAX,
            self.inputs@.len() <= usize::MAX,
            self.outputs@.len() <= usize::MAX,
        ensures
            self.wf_structure(),
    {
        reveal(Graph::wf_structure);
        let ins = self.inputs@;
        let outs = self.outputs@;
        let lks = self.links@;
        let nds = self.nodes@;
        let oi = old_graph.inputs@.len();
        let oo = old_graph.outputs@.len();
        let on = old_graph.nodes@.len();
        assert forall|i: int| 0 <= i < oi implies #[trigger] ins[i] == old_graph.inputs@[i] by {
            assert(ins.subrange(0, oi as int)[i] == ins[i]);
        }
        assert forall|o: int| 0 <= o < oo implies #[trigger] outs[o] == old_graph.outputs@[o] by {
            assert(outs.subrange(0, oo as int)[o] == outs[o]);
        }
        assert forall|i: int| 0 <= i < ins.len() implies {
            &&& (#[trigger] ins[i]).node.idx < nds.len()
            &&& !ins[i].deleted
            &&& ih_below(ins[i].prev, ins.len() as int)
            &&& ih_below(ins[i].next, ins.len() as int)
            &&& match ins[i].link {
                Some(l) => l.idx < lks.len() && !lks[l.idx as int].deleted && lks[l.idx as int].end.idx == i,
                None => true,
            }
        } by {
            if i < oi {
                assert(old_graph.inputs@[i] == ins[i]);
            } else {
                assert(ins[oi + (i - oi)] == ins[i]);
            }
        }
        assert forall|o: int| 0 <= o < outs.len() implies {
            &&& (#[trigger] outs[o]).node.idx < nds.len()
            &&& !outs[o].deleted
            &&& oh_below(outs[o].prev, outs.len() as int)
            &&& oh_below(outs[o].next, outs.len() as int)
            &&& outs[o].link == lh_at(self.fans@[o], 0)
            &&& link_chain(lks, o, self.fans@[o], self.link_pos@)
        } by {
            if o < oo {
                assert(old_graph.outputs@[o] == outs[o]);
                assert(self.fans@[o] == old_graph.fans@[o]);
            } else {
                assert(outs[oo + (o - oo)] == outs[o]);
                assert(self.fans@[o] == Seq::<int>::empty());
            }
        }
        assert forall|l: int| 0 <= l < lks.len() implies {
            &&& (#[trigger] lks[l]).start.idx < outs.len()
            &&& lks[l].end.idx < ins.len()
            &&& lh_below(lks[l].prev, lks.len() as int)
            &&& lh_below(lks[l].next, lks.len() as int)
            &&& !lks[l].deleted ==> {
                &&& 0 <= self.link_pos@[l] < self.fans@[lks[l].start.idx as int].len()
                &&& self.fans@[lks[l].start.idx as int][self.link_pos@[l]] == l
                &&& ins[lks[l].end.idx as int].link == Some(LH { idx: l as usize })
            }
        } by {
            assert(old_graph.links@[l] == lks[l]);
            let s = lks[l].start.idx as int;
            assert(self.fans@[s] == old_graph.fans@[s]);
            assert(ins[lks[l].end.idx as int] == old_graph.inputs@[lks[l].end.idx as int]);
        }
        assert forall|n: int| 0 <= n < nds.len() implies {
            &&& !(#[trigger] nds[n]).deleted
            &&& nds[n].input == ih_at(self.node_ins@[n], 0)
            &&& nds[n].output == oh_at(self.node_outs@[n], 0)
            &&& input_chain(ins, n, self.node_ins@[n])
            &&& output_chain(outs, n, self.node_outs@[n])
        } by {
            if n < on {
                assert(old_graph.nodes@[n] == nds[n]);
                let pi = self.node_ins@[n];
                let po = self.node_outs@[n];
                assert(pi == old_graph.node_ins@[n]);
                assert(po == old_graph.node_outs@[n]);
                assert(input_chain(old_graph.inputs@, n, pi));
                assert(output_chain(old_graph.outputs@, n, po));
                assert forall|k: int| 0 <= k < pi.len() implies {
                    &&& 0 <= #[trigger] pi[k] < ins.len()
                    &&& ins[pi[k]].node.idx == n
                    &&& ins[pi[k]].prev == ih_at(pi, k - 1)
                    &&& ins[pi[k]].next == ih_at(pi, k + 1)
                } by {
                    assert(ins[pi[k]] == old_graph.inputs@[pi[k]]);
                }
                assert forall|k: int| 0 <= k < po.len() implies {
                    &&& 0 <= #[trigger] po[k] < outs.len()
                    &&& outs[po[k]].node.idx == n
                    &&& outs[po[k]].prev == oh_at(po, k - 1)
                    &&& outs[po[k]].next == oh_at(po, k + 1)
                } by {
                    assert(outs[po[k]] == old_graph.outputs@[po[k]]);
                }
            } else {
                assert(n == on);
                assert(self.node_ins@[n] == in_pins);
                assert(self.node_outs@[n] == out_pins);
                assert forall|k: int| 0 <= k < in_pins.len() implies {
                    &&& 0 <= #[trigger] in_pins[k] < ins.len()
                    &&& ins[in_pins[k]].node.idx == n
                    &&& ins[in_pins[k]].prev == ih_at(in_pins, k - 1)
                    &&& ins[in_pins[k]].next == ih_at(in_pins, k + 1)
                } by {
                    assert(ins[oi + k] == ins[in_pins[k]]);
                }
                assert forall|k: int| 0 <= k < out_pins.len() implies {
                    &&& 0 <= #[trigger] out_pins[k] < outs.len()
                    &&& outs[out_pins[k]].node.idx == n
                    &&& outs[out_pins[k]].prev == oh_at(out_pins, k - 1)
                    &&& outs[out_pins[k]].next == oh_at(out_pins, k + 1)
                } by {
                    assert(outs[oo + k] == outs[out_pins[k]]);
                }
            }
        }
    }

    /// The links leaving output `o` once input `i` is disconnected.
    pub open spec fn fanout_without_input(&self, o: int, i: int) -> Seq<int> {
        match self.input_seq()[i].link {
            Some(l) => if self.link_seq()[l.idx as int].start.idx == o {
                self.fanout(o).remove(self.fanout_index(l.idx as int))
            } else {
                self.fanout(o)
            },
            None => self.fanout(o),
        }
    }

    /// Removes the link into `input`, if there is one: the link is marked
    /// deleted and taken out of the links of its output.
    #[verifier::rlimit(40)]
    pub fn disconnect_input(&mut self, input: IH)
        requires
            old(self).wf(),
            input.idx < old(self).input_seq().len(),
        ensures
            final(self).wf(),
            final(self).source_of(input.idx as int) is None,
            forall|i: int|
                0 <= i < old(self).input_seq().len() && i != input.idx ==> #[trigger] final(self).source_of(i)
                    == old(self).source_of(i),
            final(self).input_seq() == old(self).input_seq().update(
                input.idx as int,
                Input { link: None, ..old(self).input_seq()[input.idx as int] },
            ),
            final(self).output_seq().len() == old(self).output_seq().len(),
            final(self).link_seq().len() == old(self).link_seq().len(),
            final(self).node_seq() == old(self).node_seq(),
            forall|l: int|
                0 <= l < old(self).link_seq().len() ==> {
                    &&& (#[trigger] final(self).link_seq()[l]).start == old(self).link_seq()[l].start
                    &&& final(self).link_seq()[l].end == old(self).link_seq()[l].end
                    &&& final(self).link_seq()[l].deleted == (old(self).link_seq()[l].deleted || old(self).input_seq()[input.idx as int].link == Some(LH { idx: l as usize }))
                },
            forall|o: int|
                0 <= o < old(self).output_seq().len() ==> #[trigger] final(self).fanout(o) == old(self).fanout_without_input(o, input.idx as int),
            forall|n: int|
                0 <= n < old(self).node_seq().len() ==> #[trigger] final(self).input_pins(n) == old(self).input_pins(n)
                    && final(self).output_pins(n) == old(self).output_pins(n),
    {
        let ghost old_graph = *self;
        proof {
            old_graph.lemma_wf_facts();
        }
        let cur = self.inputs[input.idx];
        match cur.link {
            None => {},
            Some(old) => {
                proof {
                    assert(old_graph.inputs@[input.idx as int] == cur);
                    let l = old.idx as int;
                    assert({
                        &&& l < old_graph.links@.len()
                        &&& !old_graph.links@[l].deleted
                        &&& old_graph.links@[l].start.idx < old_graph.outputs@.len()
                        &&& match old_graph.links@[l].prev {
                            Some(p) => p.idx < old_graph.links@.len(),
                            None => true,
                        }
                        &&& match old_graph.links@[l].next {
                            Some(p) => p.idx < old_graph.links@.len(),
                            None => true,
                        }
                        &&& old_graph.fans@.len() == old_graph.outputs@.len()
                        &&& old_graph.link_pos@.len() == old_graph.links@.len()
                        &&& ({
                            let s = old_graph.links@[l].start.idx as int;
                            let fan = old_graph.fans@[s];
                            let k = old_graph.link_pos@[l];
                            &&& 0 <= k < fan.len()
                            &&& fan[k] == l
                            &&& old_graph.outputs@[s].link == lh_at(fan, 0)
                            &&& (lh_at(fan, 0) == Some(LH { idx: l as usize }) <==> k == 0)
                            &&& old_graph.links@[l].prev == lh_at(fan, k - 1)
                            &&& old_graph.links@[l].next == lh_at(fan, k + 1)
                            &&& old_graph.links@[l].prev != Some(LH { idx: l as usize })
                            &&& old_graph.links@[l].next != Some(LH { idx: l as usize })
                            &&& (old_graph.links@[l].prev is Some && old_graph.links@[l].next is Some)
                                ==> old_graph.links@[l].prev != old_graph.links@[l].next
                        })
                    }) by {
                        reveal(Graph::wf_structure);
                        let s = old_graph.links@[l].start.idx as int;
                        let fan = old_graph.fans@[s];
                        let k = old_graph.link_pos@[l];
                        assert(old_graph.outputs@[s].node.idx < old_graph.nodes@.len());
                        assert(link_chain(old_graph.links@, s, fan, old_graph.link_pos@));
                        assert(fan[k] == l);
                        if k >= 1 {
                            assert(0 <= fan[k - 1] < old_graph.links@.len());
                        }
                        if k + 1 < fan.len() {
                            assert(0 <= fan[k + 1] < old_graph.links@.len());
                            assert(old_graph.link_pos@[fan[k + 1]] == k + 1);
                        }
                        if k >= 1 {
                            assert(old_graph.link_pos@[fan[k - 1]] == k - 1);
                        }
                        if fan.len() > 0 {
                            assert(old_graph.link_pos@[fan[0]] == 0);
                        }
                    }
                    old_graph.lemma_wf_facts();
                }
                let mut inp = cur;
                inp.link = None;
                self.inputs.set(input.idx, inp);
                let mut lk = self.links[old.idx];
                let prev = lk.prev;
                let next = lk.next;
                let src = lk.start;
                lk.deleted = true;
                lk.prev = None;
                lk.next = None;
                self.links.set(old.idx, lk);
                let head_is_old = match self.outputs[src.idx].link {
                    Some(h) => h.idx == old.idx,
                    None => false,
                };
                if head_is_old {
                    let mut out = self.outputs[src.idx];
                    out.link = next;
                    self.outputs.set(src.idx, out);
                }
                match prev {
                    Some(p) => {
                        let mut pl = self.links[p.idx];
                        pl.next = next;
                        self.links.set(p.idx, pl);
                    },
                    None => {},
                }
                match next {
                    Some(n) => {
                        let mut nl = self.links[n.idx];
                        nl.prev = prev;
                        self.links.set(n.idx, nl);
                    },
                    None => {},
                }
                proof {
                    let s = src.idx as int;
                    let k = old_graph.link_pos@[old.idx as int];
                    let fan = old_graph.fans@[s];
                    self.fans@ = old_graph.fans@.update(s, fan.remove(k));
                    self.link_pos@ = Seq::new(
                        old_graph.link_pos@.len(),
                        |x: int|
                            if 0 <= x < old_graph.links@.len() && old_graph.links@[x].start.idx == s && !old_graph.links@[x].deleted
                                && old_graph.link_pos@[x] > k {
                                old_graph.link_pos@[x] - 1
                            } else {
                                old_graph.link_pos@[x]
                            },
                    );
                    self.lemma_disconnect_wf(old_graph, input.idx as int, old.idx as int);
                    assert forall|o: int| 0 <= o < old_graph.outputs@.len() implies (#[trigger] self.outputs@[o]).node
                        == old_graph.outputs@[o].node by {}
                    self.lemma_placed_transfer(old_graph);
                }
            },
        }
    }

    #[verifier::rlimit(100)]
    proof fn lemma_disconnect_wf(&self, g: Graph, i: int, l: int)
        requires
            g.wf(),
            0 <= i < g.inputs@.len(),
            0 <= l < g.links@.len(),
            g.inputs@[i].link == Some(LH { idx: l as usize }),
            ({
                let s = g.links@[l].start.idx as int;
                let k = g.link_pos@[l];
                let fan = g.fans@[s];
                let prev = g.links@[l].prev;
                let next = g.links@[l].next;
                &&& self.inputs@ == g.inputs@.update(i, Input { link: None, ..g.inputs@[i] })
                &&& self.nodes@ == g.nodes@
                &&& self.node_ins@ == g.node_ins@
                &&& self.node_outs@ == g.node_outs@
                &&& self.fans@ == g.fans@.update(s, fan.remove(k))
                &&& self.link_pos@ == Seq::new(
                    g.link_pos@.len(),
                    |x: int|
                        if 0 <= x < g.links@.len() && g.links@[x].start.idx == s && !g.links@[x].deleted && g.link_pos@[x]
                            > k {
                            g.link_pos@[x] - 1
                        } else {
                            g.link_pos@[x]
                        },
                )
                &&& self.outputs@ == if k == 0 {
                    g.outputs@.update(s, Output { link: next, ..g.outputs@[s] })
                } else {
                    g.outputs@
                }
                &&& self.links@.len() == g.links@.len()
                &&& forall|x: int|
                    0 <= x < g.links@.len() ==> #[trigger] self.links@[x] == if x == l {
                        Link { deleted: true, prev: None, next: None, ..g.links@[l] }
                    } else if lh_at(fan, k - 1) == Some(LH { idx: x as usize }) {
                        Link { next, ..g.links@[x] }
                    } else if lh_at(fan, k + 1) == Some(LH { idx: x as usize }) {
                        Link { prev, ..g.links@[x] }
                    } else {
                        g.links@[x]
                    }
            }),
        ensures
            self.wf_structure(),
    {
        reveal(Graph::wf_structure);
        let ins = self.inputs@;
        let outs = self.outputs@;
        let lks = self.links@;
        let nds = self.nodes@;
        let s = g.links@[l].start.idx as int;
        let k = g.link_pos@[l];
        let fan = g.fans@[s];
        let nf = fan.remove(k);
        let prev = g.links@[l].prev;
        let next = g.links@[l].next;
        assert(!g.links@[l].deleted);
        assert(0 <= s < g.outputs@.len());
        assert(link_chain(g.links@, s, fan, g.link_pos@)) by {
            assert(g.outputs@[s].node.idx < g.nodes@.len());
        }
        assert(0 <= k < fan.len() && fan[k] == l);
        assert(prev == lh_at(fan, k - 1) && next == lh_at(fan, k + 1)) by {
            assert(0 <= fan[k] < g.links@.len());
        }
        // Positions in a fan-out are distinct.
        assert forall|a: int, b: int| 0 <= a < fan.len() && 0 <= b < fan.len() && a != b implies #[trigger] fan[a]
            != #[trigger] fan[b] by {
            assert(g.link_pos@[fan[a]] == a);
            assert(g.link_pos@[fan[b]] == b);
        }
        // Links other than `l` keep their endpoints and liveness.
        assert forall|x: int| 0 <= x < lks.len() && x != l implies {
            &&& (#[trigger] lks[x]).start == g.links@[x].start
            &&& lks[x].end == g.links@[x].end
            &&& lks[x].deleted == g.links@[x].deleted
        } by {
            assert(lks[x] == if x == l {
                Link { deleted: true, prev: None, next: None, ..g.links@[l] }
            } else if lh_at(fan, k - 1) == Some(LH { idx: x as usize }) {
                Link { next, ..g.links@[x] }
            } else if lh_at(fan, k + 1) == Some(LH { idx: x as usize }) {
                Link { prev, ..g.links@[x] }
            } else {
                g.links@[x]
            });
        }
        assert(lks[l].start == g.links@[l].start && lks[l].end == g.links@[l].end && lks[l].deleted);
        // Inputs.
        assert forall|x: int| 0 <= x < ins.len() implies {
            &&& (#[trigger] ins[x]).node.idx < nds.len()
            &&& !ins[x].deleted
            &&& match ins[x].link {
                Some(m) => m.idx < lks.len() && !lks[m.idx as int].deleted && lks[m.idx as int].end.idx == x,
                None => true,
            }
        } by {
            assert(g.inputs@[x].node.idx < g.nodes@.len());
            if x != i {
                match g.inputs@[x].link {
                    Some(m) => {
                        assert(g.links@[m.idx as int].end.idx == x);
                        assert(m.idx != l);
                    },
                    None => {},
                }
            }
        }
        // Outputs.
        assert forall|o: int| 0 <= o < outs.len() implies {
            &&& (#[trigger] outs[o]).node.idx < nds.len()
            &&& !outs[o].deleted
            &&& outs[o].link == lh_at(self.fans@[o], 0)
            &&& link_chain(lks, o, self.fans@[o], self.link_pos@)
        } by {
            assert(g.outputs@[o].node.idx < g.nodes@.len());
            let fo = g.fans@[o];
            assert(link_chain(g.links@, o, fo, g.link_pos@));
            if o != s {
                assert(self.fans@[o] == fo);
                assert forall|j: int| 0 <= j < fo.len() implies {
                    &&& 0 <= #[trigger] fo[j] < lks.len()
                    &&& !lks[fo[j]].deleted
                    &&& lks[fo[j]].start.idx == o
                    &&& self.link_pos@[fo[j]] == j
                    &&& lks[fo[j]].prev == lh_at(fo, j - 1)
                    &&& lks[fo[j]].next == lh_at(fo, j + 1)
                } by {
                    let y = fo[j];
                    assert(g.links@[y].start.idx == o);
                    assert(y != l);
                    if k >= 1 {
                        assert(g.links@[fan[k - 1]].start.idx == s);
                    }
                    if k + 1 < fan.len() {
                        assert(g.links@[fan[k + 1]].start.idx == s);
                    }
                    assert(lh_at(fan, k - 1) != Some(LH { idx: y as usize }));
                    assert(lh_at(fan, k + 1) != Some(LH { idx: y as usize }));
                    assert(lks[y] == g.links@[y]);
                }
            } else {
                assert(self.fans@[o] == nf);
                if k == 0 {
                    assert(lh_at(nf, 0) == lh_at(fan, 1));
                } else {
                    assert(nf[0] == fan[0]);
                }
                assert forall|j: int| 0 <= j < nf.len() implies {
                    &&& 0 <= #[trigger] nf[j] < lks.len()
                    &&& !lks[nf[j]].deleted
                    &&& lks[nf[j]].start.idx == o
                    &&& self.link_pos@[nf[j]] == j
                    &&& lks[nf[j]].prev == lh_at(nf, j - 1)
                    &&& lks[nf[j]].next == lh_at(nf, j + 1)
                } by {
                    let src_j = if j < k {
                        j
                    } else {
                        j + 1
                    };
                    let y = fan[src_j];
                    assert(nf[j] == y);
                    assert(y != l);
                    assert(g.link_pos@[y] == src_j);
                    assert(g.links@[y].start.idx == s);
                    let ly = lks[y];
                    assert(ly == if lh_at(fan, k - 1) == Some(LH { idx: y as usize }) {
                        Link { next, ..g.links@[y] }
                    } else if lh_at(fan, k + 1) == Some(LH { idx: y as usize }) {
                        Link { prev, ..g.links@[y] }
                    } else {
                        g.links@[y]
                    });
                    if j >= 1 {
                        let pj = if j - 1 < k {
                            j - 1
                        } else {
                            j
                        };
                        assert(nf[j - 1] == fan[pj]);
                    }
                    if j + 1 < nf.len() {
                        let qj = if j + 1 < k {
                            j + 1
                        } else {
                            j + 2
                        };
                        assert(nf[j + 1] == fan[qj]);
                    }
                    if src_j == k - 1 {
                        assert(lh_at(fan, k - 1) == Some(LH { idx: y as usize }));
                    } else {
                        assert(lh_at(fan, k - 1) != Some(LH { idx: y as usize })) by {
                            if k >= 1 {
                                assert(fan[k - 1] != y);
                            }
                        }
                    }
                    if src_j == k + 1 {
                        assert(lh_at(fan, k + 1) == Some(LH { idx: y as usize }));
                    } else {
                        assert(lh_at(fan, k + 1) != Some(LH { idx: y as usize })) by {
                            if k + 1 < fan.len() {
                                assert(fan[k + 1] != y);
                            }
                        }
                    }
                }
            }
        }
        // Links.
        assert forall|x: int| 0 <= x < lks.len() implies {
            &&& (#[trigger] lks[x]).start.idx < outs.len()
            &&& lks[x].end.idx < ins.len()
            &&& !lks[x].deleted ==> {
                &&& 0 <= self.link_pos@[x] < self.fans@[lks[x].start.idx as int].len()
                &&& self.fans@[lks[x].start.idx as int][self.link_pos@[x]] == x
                &&& ins[lks[x].end.idx as int].link == Some(LH { idx: x as usize })
            }
        } by {
            assert(g.links@[x].start.idx < g.outputs@.len());
            if !lks[x].deleted {
                assert(x != l);
                assert(!g.links@[x].deleted);
                let sx = g.links@[x].start.idx as int;
                let px = g.link_pos@[x];
                assert(g.fans@[sx][px] == x);
                assert(g.inputs@[g.links@[x].end.idx as int].link == Some(LH { idx: x as usize }));
                assert(g.links@[x].end.idx != i);
                if sx == s {
                    assert(px != k);
                    if px > k {
                        assert(nf[px - 1] == fan[px]);
                    } else {
                        assert(nf[px] == fan[px]);
                    }
                }
            }
        }
        // Nodes.
        assert forall|n: int| 0 <= n < nds.len() implies {
            &&& !(#[trigger] nds[n]).deleted
            &&& nds[n].input == ih_at(self.node_ins@[n], 0)
            &&& nds[n].output == oh_at(self.node_outs@[n], 0)
            &&& input_chain(ins, n, self.node_ins@[n])
            &&& output_chain(outs, n, self.node_outs@[n])
        } by {
            assert(g.nodes@[n] == nds[n]);
            let pi = self.node_ins@[n];
            let po = self.node_outs@[n];
            assert(input_chain(g.inputs@, n, pi));
            assert(output_chain(g.outputs@, n, po));
            assert forall|j: int| 0 <= j < pi.len() implies {
                &&& 0 <= #[trigger] pi[j] < ins.len()
                &&& ins[pi[j]].node.idx == n
                &&& ins[pi[j]].prev == ih_at(pi, j - 1)
                &&& ins[pi[j]].next == ih_at(pi, j + 1)
            } by {
                assert(0 <= pi[j] < g.inputs@.len());
            }
            assert forall|j: int| 0 <= j < po.len() implies {
                &&& 0 <= #[trigger] po[j] < outs.len()
                &&& outs[po[j]].node.idx == n
                &&& outs[po[j]].prev == oh_at(po, j - 1)
                &&& outs[po[j]].next == oh_at(po, j + 1)
            } by {
                assert(0 <= po[j] < g.outputs@.len());
            }
        }
    }

    /// Connects output `from` to input `to` with a new link, appended to
    /// the links leaving `from`. A link already ending at `to` is removed
    /// first.
    #[verifier::rlimit(100)]
    pub fn push_link(&mut self, from: OH, to: IH) -> (r: Result<LH, DagError>)
        requires
            old(self).wf(),
            from.idx < old(self).output_seq().len(),
            to.idx < old(self).input_seq().len(),
        ensures
            final(self).wf(),
            r == Ok::<LH, DagError>(LH { idx: old(self).link_seq().len() as usize }),
            final(self).source_of(to.idx as int) == Some(from),
            forall|i: int|
                0 <= i < old(self).input_seq().len() && i != to.idx ==> #[trigger] final(self).source_of(i)
                    == old(self).source_of(i),
            final(self).input_seq().len() == old(self).input_seq().len(),
            final(self).output_seq().len() == old(self).output_seq().len(),
            final(self).node_seq() == old(self).node_seq(),
            final(self).link_seq().len() == old(self).link_seq().len() + 1,
            final(self).link_seq()[old(self).link_seq().len() as int] == (Link {
                start: from,
                end: to,
                prev: lh_at(
                    old(self).fanout_without_input(from.idx as int, to.idx as int),
                    old(self).fanout_without_input(from.idx as int, to.idx as int).len() - 1,
                ),
                next: None,
                deleted: false,
            }),
            forall|l: int|
                0 <= l < old(self).link_seq().len() ==> {
                    &&& (#[trigger] final(self).link_seq()[l]).start == old(self).link_seq()[l].start
                    &&& final(self).link_seq()[l].end == old(self).link_seq()[l].end
                    &&& final(self).link_seq()[l].deleted == (old(self).link_seq()[l].deleted || old(self).input_seq()[to.idx as int].link == Some(LH { idx: l as usize }))
                },
            forall|o: int|
                0 <= o < old(self).output_seq().len() ==> #[trigger] final(self).fanout(o) == if o == from.idx {
                    old(self).fanout_without_input(o, to.idx as int).push(old(self).link_seq().len() as int)
                } else {
                    old(self).fanout_without_input(o, to.idx as int)
                },
            forall|n: int|
                0 <= n < old(self).node_seq().len() ==> #[trigger] final(self).input_pins(n) == old(self).input_pins(n),
            forall|n: int|
                0 <= n < old(self).node_seq().len() ==> #[trigger] final(self).output_pins(n) == old(self).output_pins(n),
    {
        // Disconnect the input first, so that the tail found below cannot be
        // the link that goes away.
        let ghost g0 = *self;
        self.disconnect_input(to);
        let ghost mid = *self;
        assert forall|n: int| 0 <= n < old(self).node_seq().len() implies #[trigger] mid.input_pins(n) == old(self).input_pins(n) && mid.output_pins(n) == old(self).output_pins(n) by {
            assert(g0 == *old(self));
        }
        let ghost fan = mid.fans@[from.idx as int];
        assert(link_chain(mid.links@, from.idx as int, fan, mid.link_pos@) && mid.inputs@[to.idx as int].link is None
            && mid.links@.len() <= usize::MAX && mid.outputs@[from.idx as int].link == lh_at(fan, 0)) by {
            reveal(Graph::wf_structure);
            assert(!mid.outputs@[from.idx as int].deleted);
        }
        let mut last: Option<LH> = None;
        let mut tail = self.outputs[from.idx].link;
        let ghost mut k: int = 0;
        while tail.is_some()
            invariant
                *self == mid,
                mid.wf(),
                mid.links@.len() <= usize::MAX,
                forall|n: int|
                    0 <= n < old(self).node_seq().len() ==> #[trigger] mid.input_pins(n) == old(self).input_pins(n)
                        && mid.output_pins(n) == old(self).output_pins(n),
                link_chain(mid.links@, from.idx as int, fan, mid.link_pos@),
                0 <= k <= fan.len(),
                tail == lh_at(fan, k),
                last == lh_at(fan, k - 1),
            decreases fan.len() - k,
        {
            let li = tail.unwrap();
            proof {
                assert(0 <= fan[k] < mid.links@.len());
            }
            last = Some(li);
            tail = self.links[li.idx].next;
            proof {
                k = k + 1;
            }
        }
        let ghost pins_in = Seq::new(old(self).node_seq().len(), |n: int| old(self).input_pins(n));
        let ghost pins_out = Seq::new(old(self).node_seq().len(), |n: int| old(self).output_pins(n));
        assert forall|n: int| 0 <= n < pins_in.len() implies #[trigger] mid.input_pins(n) == pins_in[n]
            && mid.output_pins(n) == pins_out[n] by {
            assert(pins_in[n] == old(self).input_pins(n));
            assert(pins_out[n] == old(self).output_pins(n));
        }
        let lh = LH { idx: self.links.len() };
        self.links.push(Link { start: from, end: to, prev: last, next: None, deleted: false });
        let mut inp = self.inputs[to.idx];
        inp.link = Some(lh);
        self.inputs.set(to.idx, inp);
        match last {
            Some(p) => {
                let mut pl = self.links[p.idx];
                pl.next = Some(lh);
                self.links.set(p.idx, pl);
            },
            None => {
                let mut out = self.outputs[from.idx];
                out.link = Some(lh);
                self.outputs.set(from.idx, out);
            },
        }
        proof {
            assert(mid.fanout(from.idx as int) == old(self).fanout_without_input(from.idx as int, to.idx as int));
            assert(fan == old(self).fanout_without_input(from.idx as int, to.idx as int));
            assert(last == lh_at(fan, fan.len() - 1));
            assert(self.links@[lh.idx as int] == (Link { start: from, end: to, prev: last, next: None, deleted: false }));
            self.fans@ = mid.fans@.update(from.idx as int, fan.push(lh.idx as int));
            self.link_pos@ = mid.link_pos@.push(fan.len() as int);
            assert(self.links@.len() == self.links.len());
            self.lemma_push_link_wf(mid, from.idx as int, to.idx as int);
            assert forall|o: int| 0 <= o < mid.outputs@.len() implies (#[trigger] self.outputs@[o]).node
                == mid.outputs@[o].node by {}
            assert forall|i: int| 0 <= i < mid.inputs@.len() implies (#[trigger] self.inputs@[i]).node
                == mid.inputs@[i].node by {}
            self.lemma_placed_transfer(mid);
            mid.lemma_wf_facts();
            assert forall|n: int| 0 <= n < old(self).node_seq().len() implies #[trigger] self.input_pins(n) == old(self).input_pins(n) by {
                assert(mid.input_pins(n) == pins_in[n]);
            }
            assert forall|n: int| 0 <= n < old(self).node_seq().len() implies #[trigger] self.output_pins(n) == old(self).output_pins(n) && self.input_pins(n) == old(self).input_pins(n) by {
                assert(mid.input_pins(n) == pins_in[n]);
                assert(mid.output_pins(n) == pins_out[n]);
                assert(pins_out[n] == old(self).output_pins(n));
                assert(self.input_pins(n) == mid.input_pins(n));
                assert(self.output_pins(n) == mid.output_pins(n));
            }
            assert forall|i: int|
                0 <= i < old(self).input_seq().len() && i != to.idx implies #[trigger] self.source_of(i)
                    == old(self).source_of(i) by {
                assert(mid.source_of(i) == old(self).source_of(i));
                assert(self.inputs@[i] == mid.inputs@[i]);
                match mid.inputs@[i].link {
                    Some(m) => {
                        assert(m.idx < mid.links@.len());
                        assert(self.links@[m.idx as int].start == mid.links@[m.idx as int].start);
                    },
                    None => {},
                }
            }
            assert forall|l: int| 0 <= l < old(self).link_seq().len() implies {
                &&& (#[trigger] self.link_seq()[l]).start == old(self).link_seq()[l].start
                &&& self.link_seq()[l].end == old(self).link_seq()[l].end
                &&& self.link_seq()[l].deleted == (old(self).link_seq()[l].deleted || old(self).input_seq()[to.idx as int].link == Some(LH { idx: l as usize }))
            } by {
                assert(mid.link_seq()[l].start == old(self).link_seq()[l].start);
            }
            assert forall|o: int| 0 <= o < old(self).output_seq().len() implies #[trigger] self.fanout(o) == if o
                == from.idx {
                old(self).fanout_without_input(o, to.idx as int).push(old(self).link_seq().len() as int)
            } else {
                old(self).fanout_without_input(o, to.idx as int)
            } by {
                assert(mid.fanout(o) == old(self).fanout_without_input(o, to.idx as int));
            }
        }
        Ok(lh)
    }

    #[verifier::rlimit(60)]
    proof fn lemma_push_link_wf(&self, g: Graph, from: int, to: int)
        requires
            g.wf(),
            0 <= from < g.outputs@.len(),
            0 <= to < g.inputs@.len(),
            g.inputs@[to].link is None,
            self.links@.len() <= usize::MAX,
            ({
                let fan = g.fans@[from];
                let m = g.links@.len();
                let last = lh_at(fan, fan.len() - 1);
                &&& self.links@.len() == m + 1
                &&& self.links@[m as int] == (Link {
                    start: OH { idx: from as usize },
                    end: IH { idx: to as usize },
                    prev: last,
                    next: None,
                    deleted: false,
                })
                &&& forall|x: int|
                    0 <= x < m ==> #[trigger] self.links@[x] == if last == Some(LH { idx: x as usize }) {
                        Link { next: Some(LH { idx: m as usize }), ..g.links@[x] }
                    } else {
                        g.links@[x]
                    }
                &&& self.inputs@ == g.inputs@.update(to, Input { link: Some(LH { idx: m as usize }), ..g.inputs@[to] })
                &&& self.outputs@ == if fan.len() == 0 {
                    g.outputs@.update(from, Output { link: Some(LH { idx: m as usize }), ..g.outputs@[from] })
                } else {
                    g.outputs@
                }
                &&& self.nodes@ == g.nodes@
                &&& self.node_ins@ == g.node_ins@
                &&& self.node_outs@ == g.node_outs@
                &&& self.fans@ == g.fans@.update(from, fan.push(m as int))
                &&& self.link_pos@ == g.link_pos@.push(fan.len() as int)
            }),
        ensures
            self.wf_structure(),
    {
        reveal(Graph::wf_structure);
        let ins = self.inputs@;
        let outs = self.outputs@;
        let lks = self.links@;
        let nds = self.nodes@;
        let fan = g.fans@[from];
        let m = g.links@.len() as int;
        let last = lh_at(fan, fan.len() - 1);
        let nf = fan.push(m);
        assert(link_chain(g.links@, from, fan, g.link_pos@)) by {
            assert(g.outputs@[from].node.idx < g.nodes@.len());
        }
        assert forall|x: int| 0 <= x < m implies {
            &&& (#[trigger] lks[x]).start == g.links@[x].start
            &&& lks[x].end == g.links@[x].end
            &&& lks[x].deleted == g.links@[x].deleted
            &&& lks[x].prev == g.links@[x].prev
        } by {
            assert(lks[x] == if last == Some(LH { idx: x as usize }) {
                Link { next: Some(LH { idx: m as usize }), ..g.links@[x] }
            } else {
                g.links@[x]
            });
        }
        // Inputs.
        assert forall|x: int| 0 <= x < ins.len() implies {
            &&& (#[trigger] ins[x]).node.idx < nds.len()
            &&& !ins[x].deleted
            &&& match ins[x].link {
                Some(l) => l.idx < lks.len() && !lks[l.idx as int].deleted && lks[l.idx as int].end.idx == x,
                None => true,
            }
        } by {
            assert(g.inputs@[x].node.idx < g.nodes@.len());
        }
        // Outputs.
        assert forall|o: int| 0 <= o < outs.len() implies {
            &&& (#[trigger] outs[o]).node.idx < nds.len()
            &&& !outs[o].deleted
            &&& outs[o].link == lh_at(self.fans@[o], 0)
            &&& link_chain(lks, o, self.fans@[o], self.link_pos@)
        } by {
            assert(g.outputs@[o].node.idx < g.nodes@.len());
            let fo = g.fans@[o];
            assert(link_chain(g.links@, o, fo, g.link_pos@));
            if o != from {
                assert(self.fans@[o] == fo);
                assert forall|j: int| 0 <= j < fo.len() implies {
                    &&& 0 <= #[trigger] fo[j] < lks.len()
                    &&& !lks[fo[j]].deleted
                    &&& lks[fo[j]].start.idx == o
                    &&& self.link_pos@[fo[j]] == j
                    &&& lks[fo[j]].prev == lh_at(fo, j - 1)
                    &&& lks[fo[j]].next == lh_at(fo, j + 1)
                } by {
                    let y = fo[j];
                    assert(g.links@[y].start.idx == o);
                    if fan.len() > 0 {
                        assert(g.links@[fan[fan.len() - 1]].start.idx == from);
                    }
                    assert(last != Some(LH { idx: y as usize }));
                }
            } else {
                assert(self.fans@[o] == nf);
                if fan.len() > 0 {
                    assert(nf[0] == fan[0]);
                }
                assert forall|j: int| 0 <= j < nf.len() implies {
                    &&& 0 <= #[trigger] nf[j] < lks.len()
                    &&& !lks[nf[j]].deleted
                    &&& lks[nf[j]].start.idx == o
                    &&& self.link_pos@[nf[j]] == j
                    &&& lks[nf[j]].prev == lh_at(nf, j - 1)
                    &&& lks[nf[j]].next == lh_at(nf, j + 1)
                } by {
                    if j < fan.len() {
                        let y = fan[j];
                        assert(nf[j] == y);
                        assert(g.link_pos@[y] == j);
                        if j + 1 < fan.len() {
                            assert(nf[j + 1] == fan[j + 1]);
                            assert(fan[fan.len() - 1] != y) by {
                                assert(g.link_pos@[fan[fan.len() - 1]] == fan.len() - 1);
                            }
                        } else {
                            assert(nf[j + 1] == m);
                        }
                        if j >= 1 {
                            assert(nf[j - 1] == fan[j - 1]);
                        }
                    } else {
                        assert(nf[j] == m);
                        if j >= 1 {
                            assert(nf[j - 1] == fan[j - 1]);
                        }
                    }
                }
            }
        }
        // Links.
        assert forall|x: int| 0 <= x < lks.len() implies {
            &&& (#[trigger] lks[x]).start.idx < outs.len()
            &&& lks[x].end.idx < ins.len()
            &&& !lks[x].deleted ==> {
                &&& 0 <= self.link_pos@[x] < self.fans@[lks[x].start.idx as int].len()
                &&& self.fans@[lks[x].start.idx as int][self.link_pos@[x]] == x
                &&& ins[lks[x].end.idx as int].link == Some(LH { idx: x as usize })
            }
        } by {
            if x < m {
                assert(g.links@[x].start.idx < g.outputs@.len());
                if !lks[x].deleted {
                    let sx = g.links@[x].start.idx as int;
                    assert(g.fans@[sx][g.link_pos@[x]] == x);
                    assert(g.inputs@[g.links@[x].end.idx as int].link == Some(LH { idx: x as usize }));
                    assert(g.links@[x].end.idx != to);
                    if sx == from {
                        assert(nf[g.link_pos@[x]] == fan[g.link_pos@[x]]);
                    }
                }
            } else {
                assert(nf[fan.len() as int] == m);
            }
        }
        // Nodes.
        assert forall|n: int| 0 <= n < nds.len() implies {
            &&& !(#[trigger] nds[n]).deleted
            &&& nds[n].input == ih_at(self.node_ins@[n], 0)
            &&& nds[n].output == oh_at(self.node_outs@[n], 0)
            &&& input_chain(ins, n, self.node_ins@[n])
            &&& output_chain(outs, n, self.node_outs@[n])
        } by {
            assert(g.nodes@[n] == nds[n]);
            let pi = self.node_ins@[n];
            let po = self.node_outs@[n];
            assert(input_chain(g.inputs@, n, pi));
            assert(output_chain(g.outputs@, n, po));
            assert forall|j: int| 0 <= j < pi.len() implies {
                &&& 0 <= #[trigger] pi[j] < ins.len()
                &&& ins[pi[j]].node.idx == n
                &&& ins[pi[j]].prev == ih_at(pi, j - 1)
                &&& ins[pi[j]].next == ih_at(pi, j + 1)
            } by {
                assert(0 <= pi[j] < g.inputs@.len());
            }
            assert forall|j: int| 0 <= j < po.len() implies {
                &&& 0 <= #[trigger] po[j] < outs.len()
                &&& outs[po[j]].node.idx == n
                &&& outs[po[j]].prev == oh_at(po, j - 1)
                &&& outs[po[j]].next == oh_at(po, j + 1)
            } by {
                assert(0 <= po[j] < g.outputs@.len());
            }
        }
    }

    /// Drops the deleted elements, moving live ones into the freed places,
    /// and renumbers every handle stored in the graph to match. Pins and
    /// nodes are never deleted, so only links move: every input keeps its
    /// source, and every output its links, in the same order and to the same
    /// inputs.
    pub fn garbage_collection(&mut self) -> (r: Result<(), DagError>)
        requires
            old(self).wf(),
        ensures
            r is Ok,
            final(self).wf(),
            final(self).input_seq().len() == old(self).input_seq().len(),
            final(self).output_seq().len() == old(self).output_seq().len(),
            final(self).node_seq() == old(self).node_seq(),
            forall|n: int|
                0 <= n < old(self).node_seq().len() ==> #[trigger] final(self).input_pins(n) == old(self).input_pins(n),
            forall|n: int|
                0 <= n < old(self).node_seq().len() ==> #[trigger] final(self).output_pins(n) == old(self).output_pins(n),
            forall|l: int| 0 <= l < final(self).link_seq().len() ==> !(#[trigger] final(self).link_seq()[l]).deleted,
            forall|i: int| 0 <= i < old(self).input_seq().len() ==> #[trigger] final(self).source_of(i) == old(self).source_of(i),
            forall|o: int|
                0 <= o < old(self).output_seq().len() ==> (#[trigger] final(self).fanout(o)).len() == old(self).fanout(o).len(),
            forall|o: int, k: int|
                0 <= o < old(self).output_seq().len() && 0 <= k < old(self).fanout(o).len() ==> final(self).link_seq()[#[trigger] final(self).fanout(o)[k]].end == old(self).link_seq()[old(self).fanout(o)[k]].end,
    {
        let ghost g = *self;
        proof {
            g.lemma_wf_facts();
        }
        let mut fi = input_flags(&self.inputs);
        let (ni, imap) = compact(&mut self.inputs, &mut fi);
        self.inputs.truncate(ni);
        let mut fo = output_flags(&self.outputs);
        let (no, omap) = compact(&mut self.outputs, &mut fo);
        self.outputs.truncate(no);
        let mut fl = link_flags(&self.links);
        let ghost lflags = fl@;
        let (nl, lmap) = compact(&mut self.links, &mut fl);
        self.links.truncate(nl);
        let mut fnd = node_flags(&self.nodes);
        let (nn, nmap) = compact(&mut self.nodes, &mut fnd);
        self.nodes.truncate(nn);
        proof {
            lemma_compact_identity(g.inputs@.len() as int, ni as int, imap@, Seq::new(g.inputs@.len(), |k: int| g.inputs@[k].deleted));
            lemma_compact_identity(g.outputs@.len() as int, no as int, omap@, Seq::new(g.outputs@.len(), |k: int| g.outputs@[k].deleted));
            lemma_compact_identity(g.nodes@.len() as int, nn as int, nmap@, Seq::new(g.nodes@.len(), |k: int| g.nodes@[k].deleted));
            assert(self.inputs@ =~= g.inputs@);
            assert(self.outputs@ =~= g.outputs@);
            assert(self.nodes@ =~= g.nodes@);
        }
        let ghost links_c = self.links@;
        assert forall|j: int| 0 <= j < nl implies #[trigger] links_c[j] == g.links@[lmap@[j] as int] by {}
        // Renumber the handles held by the inputs.
        let n_in = self.inputs.len();
        let mut k: usize = 0;
        while k < n_in
            invariant
                g.wf(),
                n_in == g.inputs@.len(),
                0 <= k <= n_in,
                imap@.len() == g.inputs@.len(),
                nmap@.len() == g.nodes@.len(),
                lmap@.len() == g.links@.len(),
                forall|j: int| 0 <= j < imap@.len() ==> #[trigger] imap@[j] == j,
                forall|j: int| 0 <= j < nmap@.len() ==> #[trigger] nmap@[j] == j,
                self.outputs@ == g.outputs@,
                self.links@ == links_c,
                self.nodes@ == g.nodes@,
                self.node_ins == g.node_ins,
                self.node_outs == g.node_outs,
                self.fans == g.fans,
                self.link_pos == g.link_pos,
                self.in_pos == g.in_pos,
                self.out_pos == g.out_pos,
                self.inputs@.len() == n_in,
                forall|j: int|
                    0 <= j < n_in ==> #[trigger] self.inputs@[j] == if j < k {
                        Input { link: relink(g.inputs@[j].link, lmap@), ..g.inputs@[j] }
                    } else {
                        g.inputs@[j]
                    },
            decreases n_in - k,
        {
            proof {
                g.lemma_wf_facts();
            }
            let x = self.inputs[k];
            proof {
                assert(x == g.inputs@[k as int]);
                assert(nmap@[x.node.idx as int] == x.node.idx);
                match x.prev {
                    Some(h) => {
                        assert(imap@[h.idx as int] == h.idx);
                    },
                    None => {},
                }
                match x.next {
                    Some(h) => {
                        assert(imap@[h.idx as int] == h.idx);
                    },
                    None => {},
                }
            }
            let y = Input {
                node: NH { idx: nmap[x.node.idx] },
                link: map_lh(x.link, &lmap),
                prev: map_ih(x.prev, &imap),
                next: map_ih(x.next, &imap),
                deleted: x.deleted,
            };
            self.inputs.set(k, y);
            k = k + 1;
        }
        let ghost inputs_done = self.inputs@;
        // Renumber the handles held by the outputs.
        let n_out = self.outputs.len();
        let mut k: usize = 0;
        while k < n_out
            invariant
                g.wf(),
                n_out == g.outputs@.len(),
                0 <= k <= n_out,
                omap@.len() == g.outputs@.len(),
                nmap@.len() == g.nodes@.len(),
                lmap@.len() == g.links@.len(),
                forall|j: int| 0 <= j < omap@.len() ==> #[trigger] omap@[j] == j,
                forall|j: int| 0 <= j < nmap@.len() ==> #[trigger] nmap@[j] == j,
                self.inputs@ == inputs_done,
                self.links@ == links_c,
                self.nodes@ == g.nodes@,
                self.node_ins == g.node_ins,
                self.node_outs == g.node_outs,
                self.fans == g.fans,
                self.link_pos == g.link_pos,
                self.in_pos == g.in_pos,
                self.out_pos == g.out_pos,
                self.outputs@.len() == n_out,
                forall|j: int|
                    0 <= j < n_out ==> #[trigger] self.outputs@[j] == if j < k {
                        Output { link: relink(g.outputs@[j].link, lmap@), ..g.outputs@[j] }
                    } else {
                        g.outputs@[j]
                    },
            decreases n_out - k,
        {
            proof {
                g.lemma_wf_facts();
            }
            let x = self.outputs[k];
            proof {
                assert(x == g.outputs@[k as int]);
                assert(nmap@[x.node.idx as int] == x.node.idx);
                match x.prev {
                    Some(h) => {
                        assert(omap@[h.idx as int] == h.idx);
                    },
                    None => {},
                }
                match x.next {
                    Some(h) => {
                        assert(omap@[h.idx as int] == h.idx);
                    },
                    None => {},
                }
            }
            let y = Output {
                node: NH { idx: nmap[x.node.idx] },
                link: map_lh(x.link, &lmap),
                prev: map_oh(x.prev, &omap),
                next: map_oh(x.next, &omap),
                deleted: x.deleted,
            };
            self.outputs.set(k, y);
            k = k + 1;
        }
        let ghost outputs_done = self.outputs@;
        // Renumber the handles held by the links.
        let mut k: usize = 0;
        while k < nl
            invariant
                g.wf(),
                nl <= g.links@.len(),
                0 <= k <= nl,
                omap@.len() == g.outputs@.len(),
                imap@.len() == g.inputs@.len(),
                lmap@.len() == g.links@.len(),
                lflags.len() == g.links@.len(),
                forall|j: int| 0 <= j < lflags.len() ==> #[trigger] lflags[j] == g.links@[j].deleted,
                forall|j: int| 0 <= j < omap@.len() ==> #[trigger] omap@[j] == j,
                forall|j: int| 0 <= j < imap@.len() ==> #[trigger] imap@[j] == j,
                forall|j: int| 0 <= j < lmap@.len() ==> (#[trigger] lmap@[j]) < lmap@.len(),
                forall|j: int| 0 <= j < lmap@.len() ==> (j < nl) == !lflags[#[trigger] lmap@[j] as int],
                self.inputs@ == inputs_done,
                self.outputs@ == outputs_done,
                self.nodes@ == g.nodes@,
                self.node_ins == g.node_ins,
                self.node_outs == g.node_outs,
                self.fans == g.fans,
                self.link_pos == g.link_pos,
                self.in_pos == g.in_pos,
                self.out_pos == g.out_pos,
                self.links@.len() == nl,
                forall|j: int|
                    0 <= j < nl ==> #[trigger] self.links@[j] == if j < k {
                        Link {
                            prev: relink(g.links@[lmap@[j] as int].prev, lmap@),
                            next: relink(g.links@[lmap@[j] as int].next, lmap@),
                            ..g.links@[lmap@[j] as int]
                        }
                    } else {
                        g.links@[lmap@[j] as int]
                    },
            decreases nl - k,
        {
            proof {
                g.lemma_wf_facts();
            }
            let x = self.links[k];
            proof {
                let old_j = lmap@[k as int] as int;
                assert(x == g.links@[old_j]);
                assert(0 <= old_j < g.links@.len());
                assert(omap@[x.start.idx as int] == x.start.idx);
                assert(imap@[x.end.idx as int] == x.end.idx);
            }
            let y = Link {
                start: OH { idx: omap[x.start.idx] },
                end: IH { idx: imap[x.end.idx] },
                prev: map_lh(x.prev, &lmap),
                next: map_lh(x.next, &lmap),
                deleted: x.deleted,
            };
            self.links.set(k, y);
            k = k + 1;
        }
        let ghost links_done = self.links@;
        // Renumber the handles held by the nodes.
        let n_nodes = self.nodes.len();
        let mut k: usize = 0;
        while k < n_nodes
            invariant
                g.wf(),
                n_nodes == g.nodes@.len(),
                0 <= k <= n_nodes,
                imap@.len() == g.inputs@.len(),
                omap@.len() == g.outputs@.len(),
                forall|j: int| 0 <= j < imap@.len() ==> #[trigger] imap@[j] == j,
                forall|j: int| 0 <= j < omap@.len() ==> #[trigger] omap@[j] == j,
                self.nodes@ == g.nodes@,
                self.inputs@ == inputs_done,
                self.outputs@ == outputs_done,
                self.links@ == links_done,
                self.node_ins == g.node_ins,
                self.node_outs == g.node_outs,
                self.fans == g.fans,
                self.link_pos == g.link_pos,
                self.in_pos == g.in_pos,
                self.out_pos == g.out_pos,
            decreases n_nodes - k,
        {
            proof {
                g.lemma_wf_facts();
            }
            let x = self.nodes[k];
            proof {
                assert(x == g.nodes@[k as int]);
            }
            let y = Node { input: map_ih(x.input, &imap), output: map_oh(x.output, &omap), deleted: x.deleted };
            proof {
                match x.input {
                    Some(h) => {
                        assert(imap@[h.idx as int] == h.idx);
                    },
                    None => {},
                }
                match x.output {
                    Some(h) => {
                        assert(omap@[h.idx as int] == h.idx);
                    },
                    None => {},
                }
                assert(y == x);
            }
            self.nodes.set(k, y);
            proof {
                assert(self.nodes@ =~= g.nodes@);
            }
            k = k + 1;
        }
        proof {
            self.fans@ = Seq::new(g.fans@.len(), |o: int| g.fans@[o].map_values(|x: int| lmap@[x] as int));
            self.link_pos@ = Seq::new(nl as nat, |j: int| g.link_pos@[lmap@[j] as int]);
            self.lemma_gc_wf(g, lmap@, nl as int);
            self.lemma_placed_transfer(g);
            assert forall|o: int, k: int|
                0 <= o < g.outputs@.len() && 0 <= k < g.fans@[o].len() implies self.link_seq()[#[trigger] self.fanout(
                o,
            )[k]].end == g.link_seq()[g.fanout(o)[k]].end by {
                reveal(Graph::wf_structure);
                let y = g.fans@[o][k];
                assert(!g.outputs@[o].deleted);
                assert(link_chain(g.links@, o, g.fans@[o], g.link_pos@));
                assert(0 <= y < g.links@.len() && !g.links@[y].deleted);
                assert(lmap@[lmap@[y] as int] == y);
                assert(lmap@[y] < nl);
                assert(self.fans@[o][k] == lmap@[y] as int);
            }
        }
        Ok(())
    }

    #[verifier::rlimit(60)]
    proof fn lemma_gc_wf(&self, g: Graph, lmap: Seq<usize>, nl: int)
        requires
            g.wf(),
            lmap.len() == g.links@.len(),
            0 <= nl <= lmap.len(),
            forall|j: int| 0 <= j < lmap.len() ==> (#[trigger] lmap[j]) < lmap.len(),
            forall|j: int| 0 <= j < lmap.len() ==> lmap[lmap[j] as int] == j,
            forall|j: int| 0 <= j < lmap.len() ==> (j < nl) == !g.links@[#[trigger] lmap[j] as int].deleted,
            self.inputs@.len() == g.inputs@.len(),
            forall|j: int|
                0 <= j < g.inputs@.len() ==> #[trigger] self.inputs@[j] == (Input {
                    link: relink(g.inputs@[j].link, lmap),
                    ..g.inputs@[j]
                }),
            self.outputs@.len() == g.outputs@.len(),
            forall|j: int|
                0 <= j < g.outputs@.len() ==> #[trigger] self.outputs@[j] == (Output {
                    link: relink(g.outputs@[j].link, lmap),
                    ..g.outputs@[j]
                }),
            self.links@.len() == nl,
            forall|j: int|
                0 <= j < nl ==> #[trigger] self.links@[j] == (Link {
                    prev: relink(g.links@[lmap[j] as int].prev, lmap),
                    next: relink(g.links@[lmap[j] as int].next, lmap),
                    ..g.links@[lmap[j] as int]
                }),
            self.nodes@ == g.nodes@,
            self.node_ins@ == g.node_ins@,
            self.node_outs@ == g.node_outs@,
            self.fans@ == Seq::new(g.fans@.len(), |o: int| g.fans@[o].map_values(|x: int| lmap[x] as int)),
            self.link_pos@ == Seq::new(nl as nat, |j: int| g.link_pos@[lmap[j] as int]),
        ensures
            self.wf_structure(),
    {
        reveal(Graph::wf_structure);
        let ins = self.inputs@;
        let outs = self.outputs@;
        let lks = self.links@;
        let nds = self.nodes@;
        // Live links keep a place below `nl`.
        assert forall|l: int| 0 <= l < lmap.len() && !g.links@[l].deleted implies #[trigger] lmap[l] < nl by {
            assert(lmap[lmap[l] as int] == l);
        }
        // Live links have live neighbours.
        assert forall|l: int| 0 <= l < lmap.len() && !g.links@[l].deleted implies {
            &&& match (#[trigger] g.links@[l]).prev {
                Some(p) => p.idx < lmap.len() && !g.links@[p.idx as int].deleted,
                None => true,
            }
            &&& match g.links@[l].next {
                Some(p) => p.idx < lmap.len() && !g.links@[p.idx as int].deleted,
                None => true,
            }
        } by {
            let s = g.links@[l].start.idx as int;
            assert(0 <= s < g.outputs@.len());
            assert(!g.outputs@[s].deleted);
            let fan = g.fans@[s];
            let k = g.link_pos@[l];
            assert(link_chain(g.links@, s, fan, g.link_pos@));
            assert(fan[k] == l);
            if k >= 1 {
                assert(0 <= fan[k - 1] < g.links@.len());
            }
            if k + 1 < fan.len() {
                assert(0 <= fan[k + 1] < g.links@.len());
            }
        }
        // Inputs.
        assert forall|i: int| 0 <= i < ins.len() implies {
            &&& (#[trigger] ins[i]).node.idx < nds.len()
            &&& !ins[i].deleted
            &&& ih_below(ins[i].prev, ins.len() as int)
            &&& ih_below(ins[i].next, ins.len() as int)
            &&& match ins[i].link {
                Some(l) => l.idx < lks.len() && !lks[l.idx as int].deleted && lks[l.idx as int].end.idx == i,
                None => true,
            }
        } by {
            assert(ins[i] == Input { link: relink(g.inputs@[i].link, lmap), ..g.inputs@[i] });
            match g.inputs@[i].link {
                Some(l) => {
                    let li = l.idx as int;
                    assert(!g.links@[li].deleted);
                    assert(lmap[li] < nl);
                    assert(lmap[lmap[li] as int] == li);
                    assert(lks[lmap[li] as int].end == g.links@[li].end);
                },
                None => {},
            }
        }
        // Outputs.
        assert forall|o: int| 0 <= o < outs.len() implies {
            &&& (#[trigger] outs[o]).node.idx < nds.len()
            &&& !outs[o].deleted
            &&& oh_below(outs[o].prev, outs.len() as int)
            &&& oh_below(outs[o].next, outs.len() as int)
            &&& outs[o].link == lh_at(self.fans@[o], 0)
            &&& link_chain(lks, o, self.fans@[o], self.link_pos@)
        } by {
            assert(outs[o] == Output { link: relink(g.outputs@[o].link, lmap), ..g.outputs@[o] });
            let fan = g.fans@[o];
            let nf = self.fans@[o];
            assert(nf == fan.map_values(|x: int| lmap[x] as int));
            assert(link_chain(g.links@, o, fan, g.link_pos@));
            assert(g.outputs@[o].link == lh_at(fan, 0));
            if fan.len() > 0 {
                assert(0 <= fan[0] < g.links@.len());
            }
            assert forall|k: int| 0 <= k < nf.len() implies {
                &&& 0 <= #[trigger] nf[k] < lks.len()
                &&& !lks[nf[k]].deleted
                &&& lks[nf[k]].start.idx == o
                &&& self.link_pos@[nf[k]] == k
                &&& lks[nf[k]].prev == lh_at(nf, k - 1)
                &&& lks[nf[k]].next == lh_at(nf, k + 1)
            } by {
                let y = fan[k];
                assert(0 <= y < g.links@.len());
                assert(!g.links@[y].deleted);
                assert(lmap[y] < nl);
                assert(nf[k] == lmap[y] as int);
                assert(lmap[lmap[y] as int] == y);
                assert(lks[nf[k]] == Link {
                    prev: relink(g.links@[y].prev, lmap),
                    next: relink(g.links@[y].next, lmap),
                    ..g.links@[y]
                });
                if k >= 1 {
                    assert(0 <= fan[k - 1] < g.links@.len());
                    assert(nf[k - 1] == lmap[fan[k - 1]] as int);
                }
                if k + 1 < nf.len() {
                    assert(0 <= fan[k + 1] < g.links@.len());
                    assert(nf[k + 1] == lmap[fan[k + 1]] as int);
                }
            }
        }
        // Links.
        assert forall|x: int| 0 <= x < lks.len() implies {
            &&& (#[trigger] lks[x]).start.idx < outs.len()
            &&& lks[x].end.idx < ins.len()
            &&& lh_below(lks[x].prev, lks.len() as int)
            &&& lh_below(lks[x].next, lks.len() as int)
            &&& !lks[x].deleted ==> {
                &&& 0 <= self.link_pos@[x] < self.fans@[lks[x].start.idx as int].len()
                &&& self.fans@[lks[x].start.idx as int][self.link_pos@[x]] == x
                &&& ins[lks[x].end.idx as int].link == Some(LH { idx: x as usize })
            }
        } by {
            let ox = lmap[x] as int;
            assert(0 <= ox < g.links@.len());
            assert(!g.links@[ox].deleted);
            assert(lmap[ox] == x);
            let s = g.links@[ox].start.idx as int;
            let p = g.link_pos@[ox];
            assert(g.fans@[s][p] == ox);
            assert(self.fans@[s] == g.fans@[s].map_values(|y: int| lmap[y] as int));
            let e = g.links@[ox].end.idx as int;
            assert(g.inputs@[e].link == Some(LH { idx: ox as usize }));
            assert(ins[e] == Input { link: relink(g.inputs@[e].link, lmap), ..g.inputs@[e] });
        }
        // Nodes.
        assert forall|n: int| 0 <= n < nds.len() implies {
            &&& !(#[trigger] nds[n]).deleted
            &&& nds[n].input == ih_at(self.node_ins@[n], 0)
            &&& nds[n].output == oh_at(self.node_outs@[n], 0)
            &&& input_chain(ins, n, self.node_ins@[n])
            &&& output_chain(outs, n, self.node_outs@[n])
        } by {
            let pi = self.node_ins@[n];
            let po = self.node_outs@[n];
            assert(input_chain(g.inputs@, n, pi));
            assert(output_chain(g.outputs@, n, po));
            assert forall|j: int| 0 <= j < pi.len() implies {
                &&& 0 <= #[trigger] pi[j] < ins.len()
                &&& ins[pi[j]].node.idx == n
                &&& ins[pi[j]].prev == ih_at(pi, j - 1)
                &&& ins[pi[j]].next == ih_at(pi, j + 1)
            } by {
                assert(0 <= pi[j] < g.inputs@.len());
                assert(ins[pi[j]] == Input { link: relink(g.inputs@[pi[j]].link, lmap), ..g.inputs@[pi[j]] });
            }
            assert forall|j: int| 0 <= j < po.len() implies {
                &&& 0 <= #[trigger] po[j] < outs.len()
                &&& outs[po[j]].node.idx == n
                &&& outs[po[j]].prev == oh_at(po, j - 1)
                &&& outs[po[j]].next == oh_at(po, j + 1)
            } by {
                assert(0 <= po[j] < g.outputs@.len());
                assert(outs[po[j]] == Output { link: relink(g.outputs@[po[j]].link, lmap), ..g.outputs@[po[j]] });
            }
        }
    }

    /// The output feeding input `i`, if it is connected.
    pub fn input_source(&self, i: IH) -> (r: Option<OH>)
        requires
            self.wf(),
            i.idx < self.input_seq().len(),
        ensures
            r == self.source_of(i.idx as int),
    {
        proof {
            reveal(Graph::wf_structure);
            assert(!self.inputs@[i.idx as int].deleted);
        }
        match self.inputs[i.idx].link {
            Some(l) => Some(self.links[l.idx].start),
            None => None,
        }
    }

    /// The input pins of node `n`, in order.
    pub fn node_inputs(&self, n: NH) -> (r: Vec<IH>)
        requires
            self.wf(),
            n.idx < self.node_seq().len(),
        ensures
            r@.len() == self.input_pins(n.idx as int).len(),
            forall|k: int| 0 <= k < r@.len() ==> #[trigger] r@[k].idx == self.input_pins(n.idx as int)[k],
    {
        let ghost pins = self.node_ins@[n.idx as int];
        assert(input_chain(self.inputs@, n.idx as int, pins) && self.nodes@[n.idx as int].input == ih_at(pins, 0)) by {
            reveal(Graph::wf_structure);
            assert(!self.nodes@[n.idx as int].deleted);
        }
        let mut r: Vec<IH> = Vec::new();
        let mut cur = self.nodes[n.idx].input;
        while cur.is_some()
            invariant
                input_chain(self.inputs@, n.idx as int, pins),
                r@.len() <= pins.len(),
                cur == ih_at(pins, r@.len() as int),
                forall|k: int| 0 <= k < r@.len() ==> #[trigger] r@[k].idx == pins[k],
            decreases pins.len() - r@.len(),
        {
            let i = cur.unwrap();
            proof {
                let k = r@.len() as int;
                assert(self.inputs@.len() == self.inputs.len());
                assert(0 <= pins[k] < self.inputs@.len());
                assert(self.inputs@[pins[k]].next == ih_at(pins, k + 1));
            }
            r.push(i);
            cur = self.inputs[i.idx].next;
        }
        r
    }

    /// The output pins of node `n`, in order.
    pub fn node_outputs(&self, n: NH) -> (r: Vec<OH>)
        requires
            self.wf(),
            n.idx < self.node_seq().len(),
        ensures
            r@.len() == self.output_pins(n.idx as int).len(),
            forall|k: int| 0 <= k < r@.len() ==> #[trigger] r@[k].idx == self.output_pins(n.idx as int)[k],
    {
        let ghost pins = self.node_outs@[n.idx as int];
        assert(output_chain(self.outputs@, n.idx as int, pins) && self.nodes@[n.idx as int].output == oh_at(pins, 0)) by {
            reveal(Graph::wf_structure);
            assert(!self.nodes@[n.idx as int].deleted);
        }
        let mut r: Vec<OH> = Vec::new();
        let mut cur = self.nodes[n.idx].output;
        while cur.is_some()
            invariant
                output_chain(self.outputs@, n.idx as int, pins),
                r@.len() <= pins.len(),
                cur == oh_at(pins, r@.len() as int),
                forall|k: int| 0 <= k < r@.len() ==> #[trigger] r@[k].idx == pins[k],
            decreases pins.len() - r@.len(),
        {
            let o = cur.unwrap();
            proof {
                let k = r@.len() as int;
                assert(self.outputs@.len() == self.outputs.len());
                assert(0 <= pins[k] < self.outputs@.len());
                assert(self.outputs@[pins[k]].next == oh_at(pins, k + 1));
            }
            r.push(o);
            cur = self.outputs[o.idx].next;
        }
        r
    }
}

} // verus!
