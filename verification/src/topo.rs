//! An order of the nodes of a graph in which every node comes after the
//! nodes it takes inputs from, found by a depth-first walk that reports a
//! cycle when it meets a node still on its current path.
use vstd::prelude::*;

use crate::error::DagError;
use crate::graph::{Graph, NH, OH};
use crate::graph_io::filled;

verus! {

/// The number of `true` entries.
pub open spec fn count_true(s: Seq<bool>) -> nat
    decreases s.len(),
{
    if s.len() == 0 {
        0
    } else {
        count_true(s.drop_last()) + if s.last() {
            1nat
        } else {
            0nat
        }
    }
}

proof fn lemma_count_true_bound(s: Seq<bool>)
    ensures
        count_true(s) <= s.len(),
    decreases s.len(),
{
    if s.len() > 0 {
        lemma_count_true_bound(s.drop_last());
    }
}

proof fn lemma_count_true_all(s: Seq<bool>)
    requires
        forall|i: int| 0 <= i < s.len() ==> s[i],
    ensures
        count_true(s) == s.len(),
    decreases s.len(),
{
    if s.len() > 0 {
        lemma_count_true_all(s.drop_last());
    }
}

proof fn lemma_count_true_set(s: Seq<bool>, i: int)
    requires
        0 <= i < s.len(),
        !s[i],
    ensures
        count_true(s.update(i, true)) == count_true(s) + 1,
    decreases s.len(),
{
    let t = s.update(i, true);
    if i < s.len() - 1 {
        assert(t.drop_last() =~= s.drop_last().update(i, true));
        lemma_count_true_set(s.drop_last(), i);
    } else {
        assert(t.drop_last() =~= s.drop_last());
    }
}

/// Node `x` is in `order`.
pub open spec fn occurs(order: Seq<NH>, x: int) -> bool {
    exists|i: int| 0 <= i < order.len() && (#[trigger] order[i]).idx == x
}

impl Graph {
    /// Node `n` takes an input from an output of node `d`.
    pub open spec fn depends_on(&self, n: int, d: int) -> bool {
        &&& 0 <= n < self.node_seq().len()
        &&& 0 <= d < self.node_seq().len()
        &&& exists|k: int|
            0 <= k < self.input_pins(n).len() && match self.source_of(#[trigger] self.input_pins(n)[k]) {
                Some(o) => self.output_seq()[o.idx as int].node.idx == d,
                None => false,
            }
    }

    /// `p` goes from node to node, each taking an input from the next, and
    /// ends where it started.
    pub open spec fn is_cycle(&self, p: Seq<int>) -> bool {
        &&& p.len() >= 2
        &&& p[0] == p.last()
        &&& forall|i: int| 0 <= i < p.len() - 1 ==> #[trigger] self.depends_on(p[i], p[i + 1])
    }

    /// Some nodes depend on each other in a circle.
    pub open spec fn has_cycle(&self) -> bool {
        exists|p: Seq<int>| #[trigger] self.is_cycle(p)
    }

    /// `order` holds every node once, each after the nodes it takes inputs
    /// from.
    pub open spec fn is_topological_order(&self, order: Seq<NH>) -> bool {
        &&& order.len() == self.node_seq().len()
        &&& forall|i: int, j: int| 0 <= i < j < order.len() ==> #[trigger] order[i] != #[trigger] order[j]
        &&& forall|i: int| 0 <= i < order.len() ==> (#[trigger] order[i]).idx < self.node_seq().len()
        &&& forall|x: int| 0 <= x < self.node_seq().len() ==> #[trigger] occurs(order, x)
        &&& forall|i: int, d: int|
            0 <= i < order.len() && #[trigger] self.depends_on(order[i].idx as int, d) ==> exists|j: int|
                0 <= j < i && (#[trigger] order[j]).idx == d
    }
}

/// In a topological order the nodes along a path of dependencies come
/// earlier and earlier.
proof fn lemma_order_descends(g: Graph, order: Seq<NH>, pos: spec_fn(int) -> int, p: Seq<int>, i: int)
    requires
        g.is_topological_order(order),
        forall|x: int|
            0 <= x < g.node_seq().len() ==> 0 <= #[trigger] pos(x) < order.len() && order[pos(x)].idx == x,
        p.len() >= 2,
        forall|k: int| 0 <= k < p.len() - 1 ==> #[trigger] g.depends_on(p[k], p[k + 1]),
        0 <= i < p.len() - 1,
    ensures
        pos(p[p.len() - 1]) < pos(p[i]),
    decreases p.len() - 1 - i,
{
    assert(g.depends_on(p[i], p[i + 1]));
    let a = pos(p[i]);
    assert(g.depends_on(order[a].idx as int, p[i + 1]));
    let j = choose|j: int| 0 <= j < a && (#[trigger] order[j]).idx == p[i + 1];
    let b = pos(p[i + 1]);
    assert(order[j] == order[b]);
    if j < b {
        assert(order[j] != order[b]);
    } else if b < j {
        assert(order[b] != order[j]);
    }
    if i + 1 < p.len() - 1 {
        lemma_order_descends(g, order, pos, p, i + 1);
    }
}

/// A graph with a topological order has no cycle.
pub proof fn law_topological_order_excludes_cycles(g: Graph, order: Seq<NH>)
    requires
        g.is_topological_order(order),
    ensures
        !g.has_cycle(),
{
    if g.has_cycle() {
        let p = choose|p: Seq<int>| #[trigger] g.is_cycle(p);
        let pos = |x: int| choose|i: int| 0 <= i < order.len() && (#[trigger] order[i]).idx == x;
        assert forall|x: int| 0 <= x < g.node_seq().len() implies 0 <= #[trigger] pos(x) < order.len() && order[pos(
            x,
        )].idx == x by {
            assert(occurs(order, x));
        }
        lemma_order_descends(g, order, pos, p, 0);
    }
}

/// The state of the depth-first walk: the stack of nodes to visit, each
/// with whether its inputs were already pushed; the path of nodes whose
/// inputs were pushed (`tpos` gives their places on the stack); for each
/// stack entry the place on the path of the node that pushed it (`par`);
/// and which nodes are finished or on the path.
#[verifier::opaque]
spec fn walk_ok(
    g: Graph,
    stack: Seq<(NH, bool)>,
    par: Seq<int>,
    path: Seq<int>,
    tpos: Seq<int>,
    finished: Seq<bool>,
    on_path: Seq<bool>,
) -> bool {
    let n = g.node_seq().len();
    &&& finished.len() == n
    &&& on_path.len() == n
    &&& par.len() == stack.len()
    &&& path.len() == tpos.len()
    &&& forall|q: int| 0 <= q < stack.len() ==> (#[trigger] stack[q]).0.idx < n
    &&& forall|j: int|
        0 <= j < path.len() ==> {
            &&& 0 <= #[trigger] tpos[j] < stack.len()
            &&& 0 <= path[j] < n
            &&& stack[tpos[j]].0.idx == path[j]
            &&& stack[tpos[j]].1
        }
    &&& forall|j1: int, j2: int| 0 <= j1 < j2 < path.len() ==> #[trigger] tpos[j1] < #[trigger] tpos[j2]
    &&& forall|q: int| 0 <= q < stack.len() && (#[trigger] stack[q]).1 ==> exists|j: int| 0 <= j < path.len() && tpos[j] == q
    &&& forall|j: int| 0 <= j < path.len() - 1 ==> #[trigger] g.depends_on(path[j], path[j + 1])
    &&& forall|q: int|
        0 <= q < stack.len() && !(#[trigger] stack[q]).1 ==> {
            &&& -1 <= par[q] < path.len()
            &&& par[q] >= 0 ==> tpos[par[q]] < q && g.depends_on(path[par[q]], stack[q].0.idx as int)
            &&& forall|j: int| par[q] < j < path.len() ==> #[trigger] tpos[j] > q
        }
    &&& forall|j: int, d: int|
        0 <= j < path.len() && #[trigger] g.depends_on(path[j], d) ==> finished[d] || exists|q: int|
            tpos[j] < q < stack.len() && (#[trigger] stack[q]).0.idx == d
    &&& forall|j: int| 0 <= j < path.len() ==> !finished[#[trigger] path[j]]
    &&& forall|x: int| 0 <= x < n ==> (#[trigger] on_path[x] <==> exists|j: int| 0 <= j < path.len() && path[j] == x)
    &&& forall|j1: int, j2: int| 0 <= j1 < j2 < path.len() ==> #[trigger] path[j1] != #[trigger] path[j2]
}

/// The finished nodes, in the order they were finished, each after the
/// nodes it takes inputs from.
spec fn order_ok(g: Graph, order: Seq<NH>, finished: Seq<bool>) -> bool {
    let n = g.node_seq().len();
    &&& finished.len() == n
    &&& forall|i: int, j: int| 0 <= i < j < order.len() ==> #[trigger] order[i] != #[trigger] order[j]
    &&& forall|i: int| 0 <= i < order.len() ==> (#[trigger] order[i]).idx < n && finished[order[i].idx as int]
    &&& forall|x: int| 0 <= x < n && #[trigger] finished[x] ==> occurs(order, x)
    &&& order.len() == count_true(finished)
    &&& forall|i: int, d: int|
        0 <= i < order.len() && #[trigger] g.depends_on(order[i].idx as int, d) ==> exists|j: int|
            0 <= j < i && (#[trigger] order[j]).idx == d
}

/// The nodes finished or on the path.
spec fn seen(finished: Seq<bool>, on_path: Seq<bool>) -> Seq<bool> {
    Seq::new(finished.len(), |x: int| finished[x] || on_path[x])
}

/// Where the depth-first walk stands: the next node to start from, the
/// stack of nodes to visit (each with whether its inputs were already
/// pushed), the finished nodes, the nodes on the current path, the order
/// found so far, and whether a cycle was met.
pub struct WalkState {
    pub root: int,
    pub stack: Seq<(NH, bool)>,
    pub finished: Seq<bool>,
    pub on_path: Seq<bool>,
    pub order: Seq<NH>,
    pub failed: bool,
}

impl Graph {
    /// The nodes feeding the first `k` inputs of node `n`, in the order of
    /// those inputs, one entry per connected input.
    pub open spec fn dependencies_upto(&self, n: int, k: int) -> Seq<NH>
        decreases k,
    {
        if k <= 0 {
            Seq::empty()
        } else {
            let prev = self.dependencies_upto(n, k - 1);
            match self.source_of(self.input_pins(n)[k - 1]) {
                Some(o) => prev.push(self.output_seq()[o.idx as int].node),
                None => prev,
            }
        }
    }

    /// The nodes feeding the inputs of node `n`, in the order of its inputs,
    /// one entry per connected input.
    pub open spec fn dependencies(&self, n: int) -> Seq<NH> {
        self.dependencies_upto(n, self.input_pins(n).len() as int)
    }

    /// The walk before its first step: nothing finished, nothing on the path.
    pub open spec fn walk_start(&self) -> WalkState {
        WalkState {
            root: 0,
            stack: Seq::empty(),
            finished: Seq::new(self.node_seq().len(), |x: int| false),
            on_path: Seq::new(self.node_seq().len(), |x: int| false),
            order: Seq::empty(),
            failed: false,
        }
    }

    /// One step of the walk. With an empty stack it starts from the next
    /// node unless that one is finished. Otherwise it pops the top entry: a
    /// finished node is dropped; a node whose inputs were pushed is
    /// finished and appended to the order; a node still on the path closes
    /// a cycle; any other node goes back on the stack, marked, with the
    /// nodes feeding its inputs above it, so that its last input is visited
    /// first.
    #[verifier::opaque]
    pub open spec fn walk_step(&self, s: WalkState) -> WalkState {
        if s.failed {
            s
        } else if s.stack.len() == 0 {
            if s.root >= self.node_seq().len() {
                s
            } else if s.finished[s.root] {
                WalkState { root: s.root + 1, ..s }
            } else {
                WalkState { root: s.root + 1, stack: seq![(NH { idx: s.root as usize }, false)], ..s }
            }
        } else {
            let node = s.stack.last().0;
            let rest = s.stack.drop_last();
            let x = node.idx as int;
            if s.finished[x] {
                WalkState { stack: rest, ..s }
            } else if s.stack.last().1 {
                WalkState {
                    stack: rest,
                    order: s.order.push(node),
                    finished: s.finished.update(x, true),
                    on_path: s.on_path.update(x, false),
                    ..s
                }
            } else if s.on_path[x] {
                WalkState { failed: true, ..s }
            } else {
                WalkState {
                    stack: rest.push((node, true)) + self.dependencies(x).map_values(|d: NH| (d, false)),
                    on_path: s.on_path.update(x, true),
                    ..s
                }
            }
        }
    }

    /// The walk after `k` steps.
    pub open spec fn walk_after(&self, k: nat) -> WalkState
        decreases k,
    {
        if k == 0 {
            self.walk_start()
        } else {
            self.walk_step(self.walk_after((k - 1) as nat))
        }
    }

    /// The walk has met a cycle, or has started from every node and emptied
    /// its stack.
    pub open spec fn walk_over(&self, s: WalkState) -> bool {
        s.failed || (s.stack.len() == 0 && s.root >= self.node_seq().len())
    }

    /// What the walk ends with: `CycleDetected` once it meets a cycle, else
    /// the order in which it finished the nodes.
    pub open spec fn walk_outcome(&self) -> Result<Seq<NH>, DagError> {
        let s = self.walk_after(choose|k: nat| self.walk_over(#[trigger] self.walk_after(k)));
        if s.failed {
            Err(DagError::CycleDetected)
        } else {
            Ok(s.order)
        }
    }
}

/// Once over, the walk stays where it is.
proof fn lemma_walk_stays(g: Graph, k1: nat, k2: nat)
    requires
        g.walk_over(g.walk_after(k1)),
        k1 <= k2,
    ensures
        g.walk_after(k2) == g.walk_after(k1),
    decreases k2 - k1,
{
    if k2 > k1 {
        lemma_walk_stays(g, k1, (k2 - 1) as nat);
        reveal(Graph::walk_step);
    }
}

/// A step with an empty stack starts from the next node, or passes over
/// it when it is finished.
proof fn lemma_step_start(g: Graph, s: WalkState)
    requires
        !s.failed,
        s.stack.len() == 0,
        s.root < g.node_seq().len(),
    ensures
        g.walk_step(s) == if s.finished[s.root] {
            WalkState { root: s.root + 1, ..s }
        } else {
            WalkState { root: s.root + 1, stack: seq![(NH { idx: s.root as usize }, false)], ..s }
        },
{
    reveal(Graph::walk_step);
}

/// A step that pops a finished node drops it.
proof fn lemma_step_drop(g: Graph, s: WalkState)
    requires
        !s.failed,
        s.stack.len() > 0,
        s.finished[s.stack.last().0.idx as int],
    ensures
        g.walk_step(s) == (WalkState { stack: s.stack.drop_last(), ..s }),
{
    reveal(Graph::walk_step);
}

/// A step that pops a node whose inputs were pushed finishes it.
proof fn lemma_step_finish(g: Graph, s: WalkState)
    requires
        !s.failed,
        s.stack.len() > 0,
        !s.finished[s.stack.last().0.idx as int],
        s.stack.last().1,
    ensures
        g.walk_step(s) == (WalkState {
            stack: s.stack.drop_last(),
            order: s.order.push(s.stack.last().0),
            finished: s.finished.update(s.stack.last().0.idx as int, true),
            on_path: s.on_path.update(s.stack.last().0.idx as int, false),
            ..s
        }),
{
    reveal(Graph::walk_step);
}

/// A step that pops a node still on the path meets a cycle.
proof fn lemma_step_cycle(g: Graph, s: WalkState)
    requires
        !s.failed,
        s.stack.len() > 0,
        !s.finished[s.stack.last().0.idx as int],
        !s.stack.last().1,
        s.on_path[s.stack.last().0.idx as int],
    ensures
        g.walk_step(s).failed,
{
    reveal(Graph::walk_step);
}

/// A step that pops a new node puts it back, marked, under the nodes
/// feeding its inputs.
proof fn lemma_step_expand(g: Graph, s: WalkState)
    requires
        !s.failed,
        s.stack.len() > 0,
        !s.finished[s.stack.last().0.idx as int],
        !s.stack.last().1,
        !s.on_path[s.stack.last().0.idx as int],
    ensures
        g.walk_step(s) == (WalkState {
            stack: s.stack.drop_last().push((s.stack.last().0, true)) + g.dependencies(
                s.stack.last().0.idx as int,
            ).map_values(|d: NH| (d, false)),
            on_path: s.on_path.update(s.stack.last().0.idx as int, true),
            ..s
        }),
{
    reveal(Graph::walk_step);
}

/// A walk that is over after `k` steps ends as it stands after them.
proof fn lemma_walk_outcome(g: Graph, k: nat)
    requires
        g.walk_over(g.walk_after(k)),
    ensures
        g.walk_outcome() == if g.walk_after(k).failed {
            Err::<Seq<NH>, DagError>(DagError::CycleDetected)
        } else {
            Ok(g.walk_after(k).order)
        },
{
    let c = choose|c: nat| g.walk_over(#[trigger] g.walk_after(c));
    if c <= k {
        lemma_walk_stays(g, c, k);
    } else {
        lemma_walk_stays(g, k, c);
    }
}

impl Graph {
    /// The node of output `o`.
    fn node_of_output(&self, o: OH) -> (r: NH)
        requires
            self.wf(),
            o.idx < self.output_seq().len(),
        ensures
            r == self.output_seq()[o.idx as int].node,
            r.idx < self.node_seq().len(),
    {
        proof {
            self.lemma_pins();
        }
        self.outputs()[o.idx].node
    }

    /// Every node, each after the nodes it takes inputs from, found by a
    /// depth-first walk from each node in turn; `CycleDetected` when the
    /// walk meets a node that is still on its current path.
    pub fn topological_order(&self) -> (r: Result<Vec<NH>, DagError>)
        requires
            self.wf(),
        ensures
            match r {
                Ok(order) => self.is_topological_order(order@),
                Err(e) => e == DagError::CycleDetected && self.has_cycle(),
            },
            r is Ok <==> !self.has_cycle(),
            self.walk_outcome() == match r {
                Ok(order) => Ok(order@),
                Err(e) => Err(e),
            },
    {
        proof {
            self.lemma_pins();
        }
        let n = self.nodes().len();
        let mut finished = filled(false, n);
        let mut on_path = filled(false, n);
        let mut order: Vec<NH> = Vec::new();
        proof {
            assert(finished@ =~= Seq::new(n as nat, |x: int| false));
            lemma_count_zero(finished@);
            assert(on_path@ =~= Seq::new(n as nat, |x: int| false));
        }
        let ghost mut kk: nat = 0;
        let mut root: usize = 0;
        while root < n
            invariant
                self.wf(),
                n == self.node_seq().len(),
                0 <= root <= n,
                order_ok(*self, order@, finished@),
                on_path@.len() == n,
                forall|x: int| 0 <= x < n ==> !#[trigger] on_path@[x],
                forall|x: int| 0 <= x < root ==> #[trigger] finished@[x],
                self.walk_after(kk) == (WalkState {
                    root: root as int,
                    stack: Seq::empty(),
                    finished: finished@,
                    on_path: on_path@,
                    order: order@,
                    failed: false,
                }),
            decreases n - root,
        {
            proof {
                lemma_step_start(*self, self.walk_after(kk));
            }
            if !finished[root] {
                let ghost fb = finished@;
                match self.walk_from(root, &mut finished, &mut on_path, &mut order, Ghost((kk + 1) as nat)) {
                    Ok(()) => {},
                    Err(e) => {
                        proof {
                            let k = choose|k: nat| #[trigger] self.walk_after(k).failed;
                            lemma_walk_outcome(*self, k);
                        }
                        return Err(e);
                    },
                }
                proof {
                    kk = choose|k: nat| #[trigger] self.walk_after(k) == (WalkState {
                        root: root + 1,
                        stack: Seq::empty(),
                        finished: finished@,
                        on_path: on_path@,
                        order: order@,
                        failed: false,
                    });
                }
                assert forall|x: int| 0 <= x <= root implies #[trigger] finished@[x] by {
                    if x < root {
                        assert(fb[x]);
                    }
                }
            } else {
                proof {
                    kk = kk + 1;
                }
            }
            root = root + 1;
        }
        proof {
            lemma_count_true_all(finished@);
            assert forall|x: int| 0 <= x < n implies #[trigger] occurs(order@, x) by {
                assert(finished@[x]);
            }
            law_topological_order_excludes_cycles(*self, order@);
            lemma_walk_outcome(*self, kk);
        }
        Ok(order)
    }
}

proof fn lemma_count_zero(s: Seq<bool>)
    requires
        forall|i: int| 0 <= i < s.len() ==> !s[i],
    ensures
        count_true(s) == 0,
    decreases s.len(),
{
    if s.len() > 0 {
        lemma_count_zero(s.drop_last());
    }
}

/// A finished node on top of the stack is dropped.
#[verifier::rlimit(60)]
proof fn lemma_walk_skip(
    g: Graph,
    stack: Seq<(NH, bool)>,
    par: Seq<int>,
    path: Seq<int>,
    tpos: Seq<int>,
    finished: Seq<bool>,
    on_path: Seq<bool>,
)
    requires
        walk_ok(g, stack, par, path, tpos, finished, on_path),
        stack.len() > 0,
        finished[stack.last().0.idx as int],
    ensures
        !stack.last().1,
        walk_ok(g, stack.drop_last(), par.drop_last(), path, tpos, finished, on_path),
{
    reveal(walk_ok);
    let l = stack.len() - 1;
    assert(stack.last() == stack[l]);
    if stack[l].1 {
        let j = choose|j: int| 0 <= j < path.len() && tpos[j] == l;
        assert(!finished[path[j]]);
    }
    let s2 = stack.drop_last();
    assert forall|j: int| 0 <= j < path.len() implies #[trigger] tpos[j] < l by {
        if tpos[j] == l {
            assert(stack[tpos[j]].1);
            assert(!stack[l].1);
        }
    }
    assert forall|j: int, d: int|
        0 <= j < path.len() && #[trigger] g.depends_on(path[j], d) implies finished[d] || exists|q: int|
        tpos[j] < q < s2.len() && (#[trigger] s2[q]).0.idx == d by {
        if !finished[d] {
            let q = choose|q: int| tpos[j] < q < stack.len() && (#[trigger] stack[q]).0.idx == d;
            if q < l {
                assert(s2[q] == stack[q]);
            }
        }
    }
    assert forall|q: int| 0 <= q < s2.len() && (#[trigger] s2[q]).1 implies exists|j: int|
        0 <= j < path.len() && tpos[j] == q by {
        assert(stack[q] == s2[q]);
    }
    assert forall|q: int| 0 <= q < s2.len() && !(#[trigger] s2[q]).1 implies {
        &&& -1 <= par.drop_last()[q] < path.len()
        &&& par.drop_last()[q] >= 0 ==> tpos[par.drop_last()[q]] < q && g.depends_on(
            path[par.drop_last()[q]],
            s2[q].0.idx as int,
        )
        &&& forall|j: int| par.drop_last()[q] < j < path.len() ==> #[trigger] tpos[j] > q
    } by {
        assert(stack[q] == s2[q]);
        assert(par.drop_last()[q] == par[q]);
    }
}

/// The node on top of the stack, whose inputs were pushed, is the last
/// node on the path, and everything it depends on is finished.
/// The walk's node marks cover every node, and its stack holds nodes of
/// the graph.
proof fn lemma_walk_range(
    g: Graph,
    stack: Seq<(NH, bool)>,
    par: Seq<int>,
    path: Seq<int>,
    tpos: Seq<int>,
    finished: Seq<bool>,
    on_path: Seq<bool>,
)
    requires
        walk_ok(g, stack, par, path, tpos, finished, on_path),
    ensures
        finished.len() == g.node_seq().len(),
        on_path.len() == g.node_seq().len(),
        forall|q: int| 0 <= q < stack.len() ==> (#[trigger] stack[q]).0.idx < g.node_seq().len(),
{
    reveal(walk_ok);
}

proof fn lemma_walk_top_done(
    g: Graph,
    stack: Seq<(NH, bool)>,
    par: Seq<int>,
    path: Seq<int>,
    tpos: Seq<int>,
    finished: Seq<bool>,
    on_path: Seq<bool>,
)
    requires
        walk_ok(g, stack, par, path, tpos, finished, on_path),
        stack.len() > 0,
        stack.last().1,
    ensures
        path.len() > 0,
        path.last() == stack.last().0.idx,
        tpos.last() == stack.len() - 1,
        !finished[path.last()],
        on_path[path.last()],
        forall|d: int| #[trigger] g.depends_on(path.last(), d) ==> finished[d],
{
    reveal(walk_ok);
    let l = stack.len() - 1;
    assert(stack.last() == stack[l]);
    let j0 = choose|j: int| 0 <= j < path.len() && tpos[j] == l;
    let m = path.len() - 1;
    if j0 < m {
        assert(tpos[j0] < tpos[m]);
    }
    assert(j0 == m);
    assert forall|d: int| #[trigger] g.depends_on(path.last(), d) implies finished[d] by {
        assert(g.depends_on(path[m], d));
    }
}

/// Finishing node `x`, all of whose dependencies are finished, appends it
/// to the order.
proof fn lemma_order_finish(g: Graph, order: Seq<NH>, finished: Seq<bool>, x: NH)
    requires
        order_ok(g, order, finished),
        x.idx < g.node_seq().len(),
        !finished[x.idx as int],
        forall|d: int| #[trigger] g.depends_on(x.idx as int, d) ==> finished[d],
    ensures
        order_ok(g, order.push(x), finished.update(x.idx as int, true)),
{
    let xi = x.idx as int;
    let f2 = finished.update(xi, true);
    let o = order.push(x);
    lemma_count_true_set(finished, xi);
    assert forall|i: int, j: int| 0 <= i < j < o.len() implies #[trigger] o[i] != #[trigger] o[j] by {
        if j == order.len() {
            assert(finished[order[i].idx as int]);
        } else {
            assert(order[i] != order[j]);
        }
    }
    assert forall|y: int| 0 <= y < g.node_seq().len() && #[trigger] f2[y] implies occurs(o, y) by {
        if y == xi {
            assert(o[order.len() as int].idx == xi);
        } else {
            assert(occurs(order, y));
            let i = choose|i: int| 0 <= i < order.len() && (#[trigger] order[i]).idx == y;
            assert(o[i] == order[i]);
        }
    }
    assert forall|i: int, d: int| 0 <= i < o.len() && #[trigger] g.depends_on(o[i].idx as int, d) implies exists|j: int|
        0 <= j < i && (#[trigger] o[j]).idx == d by {
        if i == order.len() {
            assert(finished[d]);
            assert(occurs(order, d));
            let j = choose|j: int| 0 <= j < order.len() && (#[trigger] order[j]).idx == d;
            assert(o[j] == order[j]);
        } else {
            assert(o[i] == order[i]);
            let j = choose|j: int| 0 <= j < i && (#[trigger] order[j]).idx == d;
            assert(o[j] == order[j]);
        }
    }
    assert forall|i: int| 0 <= i < o.len() implies (#[trigger] o[i]).idx < g.node_seq().len() && f2[o[i].idx as int] by {
        if i < order.len() {
            assert(o[i] == order[i]);
        }
    }
}

/// Once the node on top of the stack is finished, the walk goes on
/// without it.
#[verifier::rlimit(60)]
proof fn lemma_walk_finish(
    g: Graph,
    stack: Seq<(NH, bool)>,
    par: Seq<int>,
    path: Seq<int>,
    tpos: Seq<int>,
    finished: Seq<bool>,
    on_path: Seq<bool>,
)
    requires
        walk_ok(g, stack, par, path, tpos, finished, on_path),
        stack.len() > 0,
        stack.last().1,
        path.len() > 0,
        path.last() == stack.last().0.idx,
        tpos.last() == stack.len() - 1,
        on_path[path.last()],
    ensures
        ({
            let x = stack.last().0.idx as int;
            &&& walk_ok(
                g,
                stack.drop_last(),
                par.drop_last(),
                path.drop_last(),
                tpos.drop_last(),
                finished.update(x, true),
                on_path.update(x, false),
            )
            &&& seen(finished.update(x, true), on_path.update(x, false)) == seen(finished, on_path)
        }),
{
    reveal(walk_ok);
    let l = stack.len() - 1;
    let x = stack.last().0.idx as int;
    let m = path.len() - 1;
    assert(path[m] == x);
    assert(tpos[m] == l);
    let f2 = finished.update(x, true);
    let o2 = on_path.update(x, false);
    let s2 = stack.drop_last();
    let p2 = path.drop_last();
    let t2 = tpos.drop_last();
    let par2 = par.drop_last();
    assert forall|j: int| 0 <= j < p2.len() implies #[trigger] t2[j] < l by {
        assert(tpos[j] < tpos[m]);
    }
    assert forall|j: int| 0 <= j < p2.len() implies {
        &&& 0 <= #[trigger] t2[j] < s2.len()
        &&& 0 <= p2[j] < g.node_seq().len()
        &&& s2[t2[j]].0.idx == p2[j]
        &&& s2[t2[j]].1
    } by {
        assert(tpos[j] < tpos[m]);
        assert(stack[tpos[j]] == s2[tpos[j]]);
    }
    assert forall|q: int| 0 <= q < s2.len() && (#[trigger] s2[q]).1 implies exists|j: int|
        0 <= j < p2.len() && t2[j] == q by {
        assert(stack[q] == s2[q]);
        let j = choose|j: int| 0 <= j < path.len() && tpos[j] == q;
        assert(j != m);
        assert(t2[j] == tpos[j]);
        assert(0 <= j < p2.len() && t2[j] == q);
    }
    assert forall|q: int| 0 <= q < s2.len() && !(#[trigger] s2[q]).1 implies {
        &&& -1 <= par2[q] < p2.len()
        &&& par2[q] >= 0 ==> t2[par2[q]] < q && g.depends_on(p2[par2[q]], s2[q].0.idx as int)
        &&& forall|j: int| par2[q] < j < p2.len() ==> #[trigger] t2[j] > q
    } by {
        assert(stack[q] == s2[q]);
        assert(par2[q] == par[q]);
        if par[q] == m {
            assert(tpos[m] < q);
        }
    }
    assert forall|j: int, d: int|
        0 <= j < p2.len() && #[trigger] g.depends_on(p2[j], d) implies f2[d] || exists|q: int|
        t2[j] < q < s2.len() && (#[trigger] s2[q]).0.idx == d by {
        assert(g.depends_on(path[j], d));
        if !finished[d] {
            let q = choose|q: int| tpos[j] < q < stack.len() && (#[trigger] stack[q]).0.idx == d;
            if q < l {
                assert(s2[q] == stack[q]);
            }
        }
    }
    assert forall|j: int| 0 <= j < p2.len() implies !f2[#[trigger] p2[j]] by {
        assert(p2[j] == path[j]);
        assert(0 <= tpos[j] < stack.len());
        assert(0 <= path[j] < g.node_seq().len());
        assert(path[j] != path[m]);
        assert(!finished[path[j]]);
    }
    assert forall|y: int| 0 <= y < g.node_seq().len() implies (#[trigger] o2[y] <==> exists|j: int|
        0 <= j < p2.len() && p2[j] == y) by {
        if o2[y] {
            let j = choose|j: int| 0 <= j < path.len() && path[j] == y;
            assert(j != m);
            assert(p2[j] == y);
        }
        if exists|j: int| 0 <= j < p2.len() && p2[j] == y {
            let j = choose|j: int| 0 <= j < p2.len() && p2[j] == y;
            assert(path[j] == y);
            assert(path[j] != path[m]);
        }
    }
    assert(seen(f2, o2) =~= seen(finished, on_path));
}

/// A path of dependencies from `x` back to `x` is a cycle.
proof fn lemma_path_cycle(g: Graph, path: Seq<int>, a: int, x: int)
    requires
        forall|j: int| 0 <= j < path.len() - 1 ==> #[trigger] g.depends_on(path[j], path[j + 1]),
        0 <= a < path.len(),
        path[a] == x,
        g.depends_on(path.last(), x),
    ensures
        g.has_cycle(),
{
    let m = path.len() - 1;
    let c = path.subrange(a, path.len() as int).push(x);
    assert forall|i: int| 0 <= i < c.len() - 1 implies #[trigger] g.depends_on(c[i], c[i + 1]) by {
        if i < c.len() - 2 {
            assert(c[i] == path[a + i]);
            assert(c[i + 1] == path[a + i + 1]);
        } else {
            assert(c[i] == path[m]);
        }
    }
    assert(g.is_cycle(c));
}

/// A node on top of the stack whose inputs are still to be pushed was
/// pushed by the last node on the path, if there is one.
proof fn lemma_walk_top_parent(
    g: Graph,
    stack: Seq<(NH, bool)>,
    par: Seq<int>,
    path: Seq<int>,
    tpos: Seq<int>,
    finished: Seq<bool>,
    on_path: Seq<bool>,
)
    requires
        walk_ok(g, stack, par, path, tpos, finished, on_path),
        stack.len() > 0,
        !stack.last().1,
        path.len() > 0,
    ensures
        g.depends_on(path.last(), stack.last().0.idx as int),
{
    reveal(walk_ok);
    let l = stack.len() - 1;
    let m = path.len() - 1;
    assert(stack.last() == stack[l]);
    assert(0 <= tpos[m] < stack.len());
    assert(tpos[m] != l);
    assert(par[l] == m);
}

/// A node on top of the stack that is already on the path closes a cycle.
proof fn lemma_walk_cycle(
    g: Graph,
    stack: Seq<(NH, bool)>,
    par: Seq<int>,
    path: Seq<int>,
    tpos: Seq<int>,
    finished: Seq<bool>,
    on_path: Seq<bool>,
)
    requires
        walk_ok(g, stack, par, path, tpos, finished, on_path),
        stack.len() > 0,
        !stack.last().1,
        on_path[stack.last().0.idx as int],
    ensures
        g.has_cycle(),
{
    reveal(walk_ok);
    let x = stack.last().0.idx as int;
    assert(0 <= x < g.node_seq().len());
    let a = choose|j: int| 0 <= j < path.len() && path[j] == x;
    lemma_walk_top_parent(g, stack, par, path, tpos, finished, on_path);
    lemma_path_cycle(g, path, a, x);
}

/// Pushing the inputs of the node on top of the stack puts it on the path.
#[verifier::rlimit(60)]
proof fn lemma_walk_expand(
    g: Graph,
    stack: Seq<(NH, bool)>,
    par: Seq<int>,
    path: Seq<int>,
    tpos: Seq<int>,
    finished: Seq<bool>,
    on_path: Seq<bool>,
    kids: Seq<NH>,
)
    requires
        walk_ok(g, stack, par, path, tpos, finished, on_path),
        stack.len() > 0,
        !stack.last().1,
        !finished[stack.last().0.idx as int],
        !on_path[stack.last().0.idx as int],
        forall|i: int|
            0 <= i < kids.len() ==> (#[trigger] kids[i]).idx < g.node_seq().len() && g.depends_on(
                stack.last().0.idx as int,
                kids[i].idx as int,
            ),
        forall|d: int|
            #[trigger] g.depends_on(stack.last().0.idx as int, d) ==> exists|i: int|
                0 <= i < kids.len() && (#[trigger] kids[i]).idx == d,
    ensures
        ({
            let x = stack.last().0.idx as int;
            let l = stack.len() - 1;
            let s2 = stack.drop_last().push((stack.last().0, true)) + kids.map_values(|k: NH| (k, false));
            let par2 = par + Seq::new(kids.len(), |i: int| path.len() as int);
            let o2 = on_path.update(x, true);
            &&& walk_ok(g, s2, par2, path.push(x), tpos.push(l), finished, o2)
            &&& count_true(seen(finished, o2)) == count_true(seen(finished, on_path)) + 1
        }),
{
    reveal(walk_ok);
    let x = stack.last().0.idx as int;
    let l = stack.len() - 1;
    let ks = kids.map_values(|k: NH| (k, false));
    let s2 = stack.drop_last().push((stack.last().0, true)) + ks;
    let par2 = par + Seq::new(kids.len(), |i: int| path.len() as int);
    let o2 = on_path.update(x, true);
    let p2 = path.push(x);
    let t2 = tpos.push(l);
    let m = path.len() as int;
    assert forall|q: int| 0 <= q < l implies #[trigger] s2[q] == stack[q] by {}
    assert(s2[l] == (stack.last().0, true));
    assert forall|i: int| 0 <= i < kids.len() implies #[trigger] s2[l + 1 + i] == (kids[i], false) by {}
    assert forall|j: int| 0 <= j < m implies #[trigger] tpos[j] < l by {
        if tpos[j] == l {
            assert(stack[tpos[j]].1);
        }
    }
    // The node that pushed `x` is the last one on the path.
    if m > 0 {
        lemma_walk_top_parent(g, stack, par, path, tpos, finished, on_path);
    }
    assert forall|q: int| 0 <= q < s2.len() implies (#[trigger] s2[q]).0.idx < g.node_seq().len() by {
        if q > l {
            assert(s2[q] == (kids[q - l - 1], false));
        }
    }
    assert forall|j: int| 0 <= j < p2.len() implies {
        &&& 0 <= #[trigger] t2[j] < s2.len()
        &&& 0 <= p2[j] < g.node_seq().len()
        &&& s2[t2[j]].0.idx == p2[j]
        &&& s2[t2[j]].1
    } by {
        if j < m {
            assert(s2[tpos[j]] == stack[tpos[j]]);
        }
    }
    assert forall|j1: int, j2: int| 0 <= j1 < j2 < p2.len() implies #[trigger] t2[j1] < #[trigger] t2[j2] by {
        if j2 < m {
            assert(tpos[j1] < tpos[j2]);
        }
    }
    assert forall|q: int| 0 <= q < s2.len() && (#[trigger] s2[q]).1 implies exists|j: int|
        0 <= j < p2.len() && t2[j] == q by {
        if q < l {
            let j = choose|j: int| 0 <= j < path.len() && tpos[j] == q;
            assert(t2[j] == q);
        } else if q == l {
            assert(t2[m] == l);
        } else {
            assert(s2[q] == (kids[q - l - 1], false));
        }
    }
    assert forall|j: int| 0 <= j < p2.len() - 1 implies #[trigger] g.depends_on(p2[j], p2[j + 1]) by {
        if j < m - 1 {
            assert(g.depends_on(path[j], path[j + 1]));
        } else {
            assert(p2[j + 1] == x);
        }
    }
    assert forall|q: int| 0 <= q < s2.len() && !(#[trigger] s2[q]).1 implies {
        &&& -1 <= par2[q] < p2.len()
        &&& par2[q] >= 0 ==> t2[par2[q]] < q && g.depends_on(p2[par2[q]], s2[q].0.idx as int)
        &&& forall|j: int| par2[q] < j < p2.len() ==> #[trigger] t2[j] > q
    } by {
        if q < l {
            assert(s2[q] == stack[q]);
            assert(par2[q] == par[q]);
            assert forall|j: int| par2[q] < j < p2.len() implies #[trigger] t2[j] > q by {
                if j < m {
                    assert(tpos[j] > q);
                }
            }
        } else {
            assert(q > l);
            assert(s2[q] == (kids[q - l - 1], false));
            assert(par2[q] == m);
        }
    }
    assert forall|j: int, d: int|
        0 <= j < p2.len() && #[trigger] g.depends_on(p2[j], d) implies finished[d] || exists|q: int|
        t2[j] < q < s2.len() && (#[trigger] s2[q]).0.idx == d by {
        if j < m {
            assert(g.depends_on(path[j], d));
            if !finished[d] {
                let q = choose|q: int| tpos[j] < q < stack.len() && (#[trigger] stack[q]).0.idx == d;
                if q < l {
                    assert(s2[q] == stack[q]);
                } else {
                    assert(s2[l].0 == stack[l].0);
                }
            }
        } else {
            assert(g.depends_on(x, d));
            let i = choose|i: int| 0 <= i < kids.len() && (#[trigger] kids[i]).idx == d;
            assert(s2[l + 1 + i] == (kids[i], false));
        }
    }
    assert forall|j: int| 0 <= j < p2.len() implies !finished[#[trigger] p2[j]] by {
        if j < m {
            assert(!finished[path[j]]);
        }
    }
    assert forall|y: int| 0 <= y < g.node_seq().len() implies (#[trigger] o2[y] <==> exists|j: int|
        0 <= j < p2.len() && p2[j] == y) by {
        if y != x {
            if exists|j: int| 0 <= j < p2.len() && p2[j] == y {
                let j = choose|j: int| 0 <= j < p2.len() && p2[j] == y;
                assert(path[j] == y);
            }
            if on_path[y] {
                let j = choose|j: int| 0 <= j < path.len() && path[j] == y;
                assert(p2[j] == y);
            }
        } else {
            assert(p2[m] == x);
        }
    }
    assert forall|j1: int, j2: int| 0 <= j1 < j2 < p2.len() implies #[trigger] p2[j1] != #[trigger] p2[j2] by {
        if j2 == m {
            assert(!on_path[x]);
            if path[j1] == x {
                assert(exists|j: int| 0 <= j < path.len() && path[j] == x);
            }
        }
    }
    assert(seen(finished, o2) =~= seen(finished, on_path).update(x, true));
    lemma_count_true_set(seen(finished, on_path), x);
}

impl Graph {
    /// The nodes feeding the inputs of node `n`, in the order of its inputs,
    /// one entry per connected input.
    fn node_dependencies(&self, n: NH) -> (kids: Vec<NH>)
        requires
            self.wf(),
            n.idx < self.node_seq().len(),
        ensures
            forall|i: int|
                0 <= i < kids@.len() ==> (#[trigger] kids@[i]).idx < self.node_seq().len() && self.depends_on(
                    n.idx as int,
                    kids@[i].idx as int,
                ),
            forall|d: int|
                #[trigger] self.depends_on(n.idx as int, d) ==> exists|i: int|
                    0 <= i < kids@.len() && (#[trigger] kids@[i]).idx == d,
            kids@ == self.dependencies(n.idx as int),
    {
        proof {
            self.lemma_pins();
        }
        let ins = self.node_inputs(n);
        let ghost pins = self.input_pins(n.idx as int);
        let mut kids: Vec<NH> = Vec::new();
        let mut k: usize = 0;
        while k < ins.len()
            invariant
                self.wf(),
                n.idx < self.node_seq().len(),
                pins == self.input_pins(n.idx as int),
                ins@.len() == pins.len(),
                forall|j: int| 0 <= j < ins@.len() ==> #[trigger] ins@[j].idx == pins[j],
                0 <= k <= ins@.len(),
                kids@ == self.dependencies_upto(n.idx as int, k as int),
                forall|i: int|
                    0 <= i < kids@.len() ==> (#[trigger] kids@[i]).idx < self.node_seq().len() && self.depends_on(
                        n.idx as int,
                        kids@[i].idx as int,
                    ),
                forall|j: int|
                    0 <= j < k ==> match self.source_of(#[trigger] pins[j]) {
                        Some(o) => exists|i: int|
                            0 <= i < kids@.len() && (#[trigger] kids@[i]).idx == self.output_seq()[o.idx as int].node.idx,
                        None => true,
                    },
            decreases ins@.len() - k,
        {
            proof {
                self.lemma_pins();
            }
            let ghost p = pins[k as int];
            assert(0 <= p < self.input_seq().len());
            match self.input_source(ins[k]) {
                Some(oh) => {
                    proof {
                        self.lemma_pins();
                        let l = self.input_seq()[p].link.unwrap();
                        assert(self.link_seq()[l.idx as int].start == oh);
                    }
                    let d = self.node_of_output(oh);
                    let ghost before = kids@;
                    kids.push(d);
                    proof {
                        assert(self.depends_on(n.idx as int, d.idx as int)) by {
                            assert(self.input_pins(n.idx as int)[k as int] == p);
                        }
                        assert(kids@[before.len() as int] == d);
                        assert forall|j: int| 0 <= j < k implies match self.source_of(#[trigger] pins[j]) {
                            Some(o) => exists|i: int|
                                0 <= i < kids@.len() && (#[trigger] kids@[i]).idx
                                    == self.output_seq()[o.idx as int].node.idx,
                            None => true,
                        } by {
                            match self.source_of(pins[j]) {
                                Some(o) => {
                                    let i = choose|i: int|
                                        0 <= i < before.len() && (#[trigger] before[i]).idx
                                            == self.output_seq()[o.idx as int].node.idx;
                                    assert(kids@[i] == before[i]);
                                },
                                None => {},
                            }
                        }
                    }
                },
                None => {},
            }
            k = k + 1;
        }
        proof {
            assert forall|d: int| #[trigger] self.depends_on(n.idx as int, d) implies exists|i: int|
                0 <= i < kids@.len() && (#[trigger] kids@[i]).idx == d by {
                let j = choose|j: int|
                    0 <= j < self.input_pins(n.idx as int).len() && match self.source_of(
                        #[trigger] self.input_pins(n.idx as int)[j],
                    ) {
                        Some(o) => self.output_seq()[o.idx as int].node.idx == d,
                        None => false,
                    };
                assert(pins[j] == self.input_pins(n.idx as int)[j]);
            }
        }
        kids
    }
}

impl Graph {
    /// Walks depth first from `root`, finishing every node it reaches after
    /// the nodes it depends on; `CycleDetected` when it meets a node still
    /// on its path.
    fn walk_from(
        &self,
        root: usize,
        finished: &mut Vec<bool>,
        on_path: &mut Vec<bool>,
        order: &mut Vec<NH>,
        Ghost(k0): Ghost<nat>,
    ) -> (r: Result<(), DagError>)
        requires
            self.wf(),
            root < self.node_seq().len(),
            order_ok(*self, old(order)@, old(finished)@),
            old(on_path)@.len() == self.node_seq().len(),
            forall|x: int| 0 <= x < self.node_seq().len() ==> !#[trigger] old(on_path)@[x],
            self.walk_after(k0) == (WalkState {
                root: root + 1,
                stack: seq![(NH { idx: root }, false)],
                finished: old(finished)@,
                on_path: old(on_path)@,
                order: old(order)@,
                failed: false,
            }),
        ensures
            match r {
                Ok(_) => {
                    &&& order_ok(*self, final(order)@, final(finished)@)
                    &&& final(on_path)@.len() == self.node_seq().len()
                    &&& forall|x: int| 0 <= x < self.node_seq().len() ==> !#[trigger] final(on_path)@[x]
                    &&& final(finished)@[root as int]
                    &&& forall|x: int| 0 <= x < self.node_seq().len() && #[trigger] old(finished)@[x] ==> final(finished)@[x]
                    &&& exists|k: nat| #[trigger] self.walk_after(k) == (WalkState {
                        root: root + 1,
                        stack: Seq::empty(),
                        finished: final(finished)@,
                        on_path: final(on_path)@,
                        order: final(order)@,
                        failed: false,
                    })
                },
                Err(e) => e == DagError::CycleDetected && self.has_cycle() && exists|k: nat| #[trigger] self.walk_after(k).failed,
            },
    {
        let ghost n = self.node_seq().len();
        let ghost f0 = finished@;
        let mut stack: Vec<(NH, bool)> = Vec::new();
        stack.push((NH { idx: root }, false));
        assert(stack@ =~= seq![(NH { idx: root }, false)]);
        let ghost mut par: Seq<int> = seq![-1int];
        let ghost mut path: Seq<int> = Seq::empty();
        let ghost mut tpos: Seq<int> = Seq::empty();
        let ghost mut kk: nat = k0;
        proof {
            lemma_count_true_bound(seen(finished@, on_path@));
            assert(walk_ok(*self, stack@, par, path, tpos, finished@, on_path@)) by {
                reveal(walk_ok);
                assert forall|x: int| 0 <= x < n implies (#[trigger] on_path@[x] <==> exists|j: int|
                    0 <= j < path.len() && path[j] == x) by {}
            }
            assert(stack@[0].0.idx == root);
        }
        while stack.len() > 0
            invariant
                self.wf(),
                n == self.node_seq().len(),
                root < n,
                walk_ok(*self, stack@, par, path, tpos, finished@, on_path@),
                order_ok(*self, order@, finished@),
                count_true(seen(finished@, on_path@)) <= n,
                finished@[root as int] || exists|q: int| 0 <= q < stack@.len() && (#[trigger] stack@[q]).0.idx == root,
                forall|x: int| 0 <= x < n && #[trigger] f0[x] ==> finished@[x],
                self.walk_after(kk) == (WalkState {
                    root: root + 1,
                    stack: stack@,
                    finished: finished@,
                    on_path: on_path@,
                    order: order@,
                    failed: false,
                }),
            decreases n - count_true(seen(finished@, on_path@)), stack@.len(),
        {
            let ghost s0 = stack@;
            let ghost before = self.walk_after(kk);
            proof {
                lemma_walk_range(*self, stack@, par, path, tpos, finished@, on_path@);
            }
            let top = stack.pop().unwrap();
            let node = top.0;
            proof {
                assert(top == s0.last());
                assert(stack@ == s0.drop_last());
            }
            if finished[node.idx] {
                proof {
                    lemma_walk_skip(*self, s0, par, path, tpos, finished@, on_path@);
                    if !finished@[root as int] {
                        let q = choose|q: int| 0 <= q < s0.len() && (#[trigger] s0[q]).0.idx == root;
                        assert(q < s0.len() - 1);
                        assert(stack@[q] == s0[q]);
                    }
                    par = par.drop_last();
                    lemma_step_drop(*self, before);
                    kk = kk + 1;
                }
                continue;
            }
            if top.1 {
                proof {
                    lemma_walk_top_done(*self, s0, par, path, tpos, finished@, on_path@);
                    lemma_order_finish(*self, order@, finished@, node);
                    lemma_walk_finish(*self, s0, par, path, tpos, finished@, on_path@);
                    lemma_step_finish(*self, before);
                }
                let ghost fb = finished@;
                order.push(node);
                finished.set(node.idx, true);
                on_path.set(node.idx, false);
                proof {
                    path = path.drop_last();
                    tpos = tpos.drop_last();
                    par = par.drop_last();
                    lemma_count_true_bound(seen(finished@, on_path@));
                    if !finished@[root as int] {
                        let q = choose|q: int| 0 <= q < s0.len() && (#[trigger] s0[q]).0.idx == root;
                        assert(q < s0.len() - 1);
                        assert(stack@[q] == s0[q]);
                    }
                    assert forall|x: int| 0 <= x < n && #[trigger] f0[x] implies finished@[x] by {
                        assert(fb[x]);
                    }
                    kk = kk + 1;
                }
            } else {
                if on_path[node.idx] {
                    proof {
                        lemma_walk_cycle(*self, s0, par, path, tpos, finished@, on_path@);
                        lemma_step_cycle(*self, before);
                        assert(self.walk_after(kk + 1).failed);
                    }
                    return Err(DagError::CycleDetected);
                }
                let kids = self.node_dependencies(node);
                proof {
                    lemma_walk_expand(*self, s0, par, path, tpos, finished@, on_path@, kids@);
                    lemma_step_expand(*self, before);
                }
                let ghost l = s0.len() - 1;
                let ghost base = s0.drop_last().push((node, true));
                stack.push((node, true));
                on_path.set(node.idx, true);
                let mut i: usize = 0;
                while i < kids.len()
                    invariant
                        0 <= i <= kids@.len(),
                        stack@ == base + kids@.take(i as int).map_values(|k: NH| (k, false)),
                    decreases kids@.len() - i,
                {
                    stack.push((kids[i], false));
                    i = i + 1;
                    proof {
                        assert(kids@.take(i as int).map_values(|k: NH| (k, false)) =~= kids@.take(
                            i - 1,
                        ).map_values(|k: NH| (k, false)).push((kids@[i - 1], false)));
                    }
                }
                proof {
                    assert(kids@.take(kids@.len() as int) =~= kids@);
                    assert(kids@.map_values(|k: NH| (k, false)) =~= self.dependencies(node.idx as int).map_values(
                        |d: NH| (d, false),
                    ));
                    kk = kk + 1;
                    par = par + Seq::new(kids@.len(), |j: int| path.len() as int);
                    path = path.push(node.idx as int);
                    tpos = tpos.push(l);
                    lemma_count_true_bound(seen(finished@, on_path@));
                    if !finished@[root as int] {
                        let q = choose|q: int| 0 <= q < s0.len() && (#[trigger] s0[q]).0.idx == root;
                        assert(stack@[q].0 == s0[q].0);
                    }
                }
            }
        }
        proof {
            lemma_walk_range(*self, stack@, par, path, tpos, finished@, on_path@);
            assert forall|x: int| 0 <= x < n implies !#[trigger] on_path@[x] by {
                reveal(walk_ok);
                if on_path@[x] {
                    let j = choose|j: int| 0 <= j < path.len() && path[j] == x;
                    assert(0 <= tpos[j] < stack@.len());
                }
            }
            assert(self.walk_after(kk).stack =~= Seq::<(NH, bool)>::empty());
        }
        Ok(())
    }
}

} // verus!
