use crate::instruction::Instruction;
use crate::mappings::{lemma_push_no_duplicates, spec_edge, GraphMappings, StepId, ValueId};
use crate::memory::FieldElement;
use crate::trace::RegisterFrame;
use std::collections::VecDeque;
use vstd::prelude::*;

verus! {

broadcast use vstd::seq_lib::lemma_seq_contains_after_push;

/// A node of the bipartite traversal graph: either an executed step or a
/// memory cell.
#[derive(Clone, Copy, Debug, PartialEq, Eq, Structural, Hash)]
pub enum NodeId {
    Step(StepId),
    Value(ValueId),
}

/// Two nodes are adjacent when a reference edge connects them; adjacency
/// only ever joins a step node with a value node.
pub open spec fn adjacent(g: GraphMappings, a: NodeId, b: NodeId) -> bool {
    match (a, b) {
        (NodeId::Value(v), NodeId::Step(s)) => g.edge(s.0, v.0),
        (NodeId::Step(s), NodeId::Value(v)) => g.edge(s.0, v.0),
        _ => false,
    }
}

/// A candidate explanation chain: non-empty, beginning at a value node,
/// stepping only along recorded edges, and visiting no node twice.
pub open spec fn valid_path(g: GraphMappings, p: Seq<NodeId>) -> bool {
    &&& p.len() >= 1
    &&& p[0] is Value
    &&& forall|i: int| 0 <= i < p.len() - 1 ==> adjacent(g, #[trigger] p[i], p[i + 1])
    &&& p.no_duplicates()
}

/// Whether `a` is a prefix of `b`.
pub open spec fn is_path_prefix(a: Seq<NodeId>, b: Seq<NodeId>) -> bool {
    a.len() <= b.len() && forall|i: int| 0 <= i < a.len() ==> a[i] == b[i]
}

/// Whether `p` is a valid chain from the source value node to the target
/// value node.
pub open spec fn connecting_path(
    g: GraphMappings,
    source: ValueId,
    target: ValueId,
    p: Seq<NodeId>,
) -> bool {
    valid_path(g, p) && p[0] == NodeId::Value(source) && p.last() == NodeId::Value(target)
}

/// The search-step counter advances by one per pop but never wraps around.
pub open spec fn sat_inc(n: usize) -> usize {
    if n < usize::MAX {
        (n + 1) as usize
    } else {
        n
    }
}

/// A frontier container injected into the generic search routine. The two
/// implementations differ only in which end `pop` takes from: first-in
/// first-out explores breadth-first, last-in first-out depth-first.
pub trait QueueContainer<T>: Sized {
    /// The queued elements, front to back.
    spec fn elems(&self) -> Seq<T>;

    /// How many elements have been popped so far: the search-step counter.
    spec fn steps(&self) -> usize;

    /// Whether `pop` takes from the back (last-in first-out) rather than
    /// from the front.
    spec fn lifo() -> bool;

    /// A container holding exactly the initial element, with the counter at
    /// zero.
    fn new(init: T) -> (r: Self)
        ensures
            r.elems() == seq![init],
            r.steps() == 0,
    ;

    /// Append the given elements, in order, to the back.
    fn extend(&mut self, items: Vec<T>)
        ensures
            final(self).elems() == old(self).elems() + items@,
            final(self).steps() == old(self).steps(),
    ;

    /// Remove and return one element per the container's policy, counting
    /// it; `None` exactly on an empty container.
    fn pop(&mut self) -> (r: Option<T>)
        ensures
            old(self).elems().len() == 0 ==> r is None && final(self).elems() == old(self).elems()
                && final(self).steps() == old(self).steps(),
            old(self).elems().len() > 0 ==> {
                &&& final(self).steps() == sat_inc(old(self).steps())
                &&& if Self::lifo() {
                    r == Some(old(self).elems().last()) && final(self).elems() == old(
                        self,
                    ).elems().drop_last()
                } else {
                    r == Some(old(self).elems().first()) && final(self).elems() == old(
                        self,
                    ).elems().drop_first()
                }
            },
    ;
}

/// First-in first-out frontier: breadth-first exploration.
pub struct BfsQueue<T> {
    queue: VecDeque<T>,
    step: usize,
}

impl<T> BfsQueue<T> {
    /// The number of frontier elements popped so far.
    pub fn current_step(&self) -> (n: usize)
        ensures
            n == self.steps(),
    {
        self.step
    }
}

impl<T> QueueContainer<T> for BfsQueue<T> {
    closed spec fn elems(&self) -> Seq<T> {
        self.queue@
    }

    closed spec fn steps(&self) -> usize {
        self.step
    }

    open spec fn lifo() -> bool {
        false
    }

    fn new(init: T) -> (r: Self) {
        let mut queue: VecDeque<T> = VecDeque::new();
        queue.push_back(init);
        proof {
            assert(queue@ =~= seq![init]);
        }
        BfsQueue { queue, step: 0 }
    }

    fn extend(&mut self, items: Vec<T>) {
        let ghost q0 = self.queue@;
        let ghost items0 = items@;
        let mut items = items;
        while items.len() > 0
            invariant
                self.queue@ + items@ == q0 + items0,
                self.step == old(self).step,
                q0 == old(self).queue@,
            decreases items@.len(),
        {
            let ghost qa = self.queue@;
            let ghost ia = items@;
            let x = items.remove(0);
            self.queue.push_back(x);
            proof {
                assert(self.queue@ + items@ =~= qa + ia);
            }
        }
        proof {
            assert(self.queue@ =~= self.queue@ + items@);
        }
    }

    fn pop(&mut self) -> (r: Option<T>) {
        match self.queue.pop_front() {
            Some(x) => {
                if self.step < usize::MAX {
                    self.step = self.step + 1;
                }
                Some(x)
            },
            None => None,
        }
    }
}

/// Last-in first-out frontier: depth-first exploration.
pub struct DfsQueue<T> {
    queue: Vec<T>,
    step: usize,
}

impl<T> DfsQueue<T> {
    /// The number of frontier elements popped so far.
    pub fn current_step(&self) -> (n: usize)
        ensures
            n == self.steps(),
    {
        self.step
    }
}

impl<T> QueueContainer<T> for DfsQueue<T> {
    closed spec fn elems(&self) -> Seq<T> {
        self.queue@
    }

    closed spec fn steps(&self) -> usize {
        self.step
    }

    open spec fn lifo() -> bool {
        true
    }

    fn new(init: T) -> (r: Self) {
        let mut queue: Vec<T> = Vec::new();
        queue.push(init);
        proof {
            assert(queue@ =~= seq![init]);
        }
        DfsQueue { queue, step: 0 }
    }

    fn extend(&mut self, items: Vec<T>) {
        let ghost q0 = self.queue@;
        let ghost items0 = items@;
        let mut items = items;
        while items.len() > 0
            invariant
                self.queue@ + items@ == q0 + items0,
                self.step == old(self).step,
                q0 == old(self).queue@,
            decreases items@.len(),
        {
            let ghost qa = self.queue@;
            let ghost ia = items@;
            let x = items.remove(0);
            self.queue.push(x);
            proof {
                assert(self.queue@ + items@ =~= qa + ia);
            }
        }
        proof {
            assert(self.queue@ =~= self.queue@ + items@);
        }
    }

    fn pop(&mut self) -> (r: Option<T>) {
        match self.queue.pop() {
            Some(x) => {
                if self.step < usize::MAX {
                    self.step = self.step + 1;
                }
                Some(x)
            },
            None => None,
        }
    }
}

/// Whether the path already visits the given node.
fn path_contains(p: &Vec<NodeId>, n: NodeId) -> (r: bool)
    ensures
        r == p@.contains(n),
{
    let mut i: usize = 0;
    while i < p.len()
        invariant
            i <= p@.len(),
            forall|j: int| 0 <= j < i ==> p@[j] != n,
        decreases p@.len() - i,
    {
        if p[i] == n {
            assert(p@.contains(n)) by {
                assert(p@[i as int] == n);
            }
            return true;
        }
        i += 1;
    }
    false
}

/// Copy a path so an extension of it can be queued on its own.
fn clone_path(p: &Vec<NodeId>) -> (r: Vec<NodeId>)
    ensures
        r@ == p@,
{
    let mut out: Vec<NodeId> = Vec::new();
    let mut i: usize = 0;
    while i < p.len()
        invariant
            i <= p@.len(),
            out@ == p@.take(i as int),
        decreases p@.len() - i,
    {
        out.push(p[i]);
        proof {
            assert(out@ =~= p@.take(i + 1));
        }
        i += 1;
    }
    proof {
        assert(p@.take(p@.len() as int) =~= p@);
    }
    out
}


/// Whether a node's id has at least one recorded edge in the graph.
pub open spec fn key_node(g: GraphMappings, n: NodeId) -> bool {
    match n {
        NodeId::Step(s) => g.has_step(s.0),
        NodeId::Value(v) => g.has_value(v.0),
    }
}

/// A valid path that starts at a recorded value node is never longer than
/// the graph's size bound: its nodes are pairwise distinct and each of them
/// is a recorded key.
pub proof fn lemma_path_len_bound(g: &GraphMappings, p: Seq<NodeId>)
    requires
        g.wf(),
        valid_path(*g, p),
        p.len() >= 2 || key_node(*g, p[0]),
    ensures
        p.len() <= g.size_bound(),
{
    broadcast use vstd::set::group_set_axioms;

    assert forall|i: int| 0 <= i < p.len() implies key_node(*g, #[trigger] p[i]) by {
        if i > 0 {
            assert(adjacent(*g, p[i - 1], p[i]));
            match p[i] {
                NodeId::Step(s) => {
                    assert(p[i - 1] matches NodeId::Value(pv) && g.step_has_value(s.0, pv.0));
                },
                NodeId::Value(v) => {
                    assert(p[i - 1] matches NodeId::Step(ps) && g.step_has_value(ps.0, v.0));
                    let ps = p[i - 1]->Step_0;
                    crate::mappings::lemma_symmetry(g, ps.0, v.0);
                },
            }
        } else if p.len() >= 2 {
            assert(adjacent(*g, p[0], p[1]));
            let v0 = p[0]->Value_0;
            assert(p[1] matches NodeId::Step(ps) && g.step_has_value(ps.0, v0.0));
            let ps = p[1]->Step_0;
            crate::mappings::lemma_symmetry(g, ps.0, v0.0);
        }
    }
    g.lemma_key_sets_finite();
    let fs = |s: usize| NodeId::Step(StepId(s));
    let fv = |v: usize| NodeId::Value(ValueId(v));
    let simg = g.step_key_set().map(fs);
    let vimg = g.value_key_set().map(fv);
    vstd::set_lib::lemma_map_size_bound(g.step_key_set(), simg, fs);
    vstd::set_lib::lemma_map_size_bound(g.value_key_set(), vimg, fv);
    vstd::set_lib::lemma_len_union(simg, vimg);
    let keynodes = simg.union(vimg);
    assert forall|i: int| 0 <= i < p.len() implies keynodes.contains(#[trigger] p[i]) by {
        match p[i] {
            NodeId::Step(s) => {
                assert(g.step_key_set().contains(s.0));
                assert(p[i] == fs(s.0));
                assert(simg.contains(p[i]));
            },
            NodeId::Value(v) => {
                assert(g.value_key_set().contains(v.0));
                assert(p[i] == fv(v.0));
                assert(vimg.contains(p[i]));
            },
        }
    }
    crate::mappings::lemma_distinct_len_bound(p, keynodes);
}

/// Exponentials over the naturals.
pub open spec fn pow_nat(b: nat, e: nat) -> nat
    decreases e,
{
    if e == 0 {
        1
    } else {
        b * pow_nat(b, (e - 1) as nat)
    }
}

proof fn lemma_pow_nat_pos(b: nat, e: nat)
    requires
        b >= 1,
    ensures
        pow_nat(b, e) >= 1,
    decreases e,
{
    if e > 0 {
        lemma_pow_nat_pos(b, (e - 1) as nat);
        assert(b * pow_nat(b, (e - 1) as nat) >= 1) by (nonlinear_arith)
            requires
                b >= 1,
                pow_nat(b, (e - 1) as nat) >= 1,
        ;
    }
}

/// The weight of one queued path under a length cap: shorter paths weigh
/// exponentially more, so replacing a popped path by its one-step
/// extensions strictly shrinks the frontier's total weight.
pub open spec fn path_weight(cap: nat, b: nat, p: Seq<NodeId>) -> nat {
    if p.len() <= cap {
        pow_nat(b, (cap - p.len()) as nat)
    } else {
        0
    }
}

/// The total weight of a frontier: the termination measure of the search.
pub open spec fn frontier_measure(cap: nat, b: nat, q: Seq<Vec<NodeId>>) -> nat
    decreases q.len(),
{
    if q.len() == 0 {
        0
    } else {
        path_weight(cap, b, q[0]@) + frontier_measure(cap, b, q.drop_first())
    }
}

proof fn lemma_measure_concat(cap: nat, b: nat, q1: Seq<Vec<NodeId>>, q2: Seq<Vec<NodeId>>)
    ensures
        frontier_measure(cap, b, q1 + q2) == frontier_measure(cap, b, q1) + frontier_measure(
            cap,
            b,
            q2,
        ),
    decreases q1.len(),
{
    if q1.len() == 0 {
        assert(q1 + q2 =~= q2);
    } else {
        assert((q1 + q2).drop_first() =~= q1.drop_first() + q2);
        assert((q1 + q2)[0] == q1[0]);
        lemma_measure_concat(cap, b, q1.drop_first(), q2);
    }
}

proof fn lemma_measure_last(cap: nat, b: nat, q: Seq<Vec<NodeId>>)
    requires
        q.len() > 0,
    ensures
        frontier_measure(cap, b, q) == frontier_measure(cap, b, q.drop_last()) + path_weight(
            cap,
            b,
            q.last()@,
        ),
{
    assert(q =~= q.drop_last() + seq![q.last()]);
    lemma_measure_concat(cap, b, q.drop_last(), seq![q.last()]);
    let single = seq![q.last()];
    assert(single.drop_first() =~= Seq::<Vec<NodeId>>::empty());
    assert(frontier_measure(cap, b, single.drop_first()) == 0);
    assert(single[0] == q.last());
    assert(frontier_measure(cap, b, single) == path_weight(cap, b, q.last()@));
}

proof fn lemma_measure_uniform_bound(cap: nat, b: nat, q: Seq<Vec<NodeId>>, w: nat)
    requires
        forall|i: int| 0 <= i < q.len() ==> path_weight(cap, b, (#[trigger] q[i])@) <= w,
    ensures
        frontier_measure(cap, b, q) <= q.len() * w,
    decreases q.len(),
{
    if q.len() > 0 {
        assert(path_weight(cap, b, q[0]@) <= w);
        assert forall|i: int|
            0 <= i < q.drop_first().len() implies path_weight(
            cap,
            b,
            (#[trigger] q.drop_first()[i])@,
        ) <= w by {
            assert(q.drop_first()[i] == q[i + 1]);
        }
        lemma_measure_uniform_bound(cap, b, q.drop_first(), w);
        assert(w + (q.len() - 1) * w == q.len() * w) by (nonlinear_arith)
            requires
                q.len() >= 1,
        ;
    }
}


/// Replacing a popped path by its one-step extensions strictly shrinks the
/// frontier's total weight: the popped path weighs more than all of its
/// extensions together.
proof fn lemma_frontier_measure_shrinks(
    g: &GraphMappings,
    qpre: Seq<Vec<NodeId>>,
    qmid: Seq<Vec<NodeId>>,
    cur: Seq<Vec<NodeId>>,
    path: Seq<NodeId>,
    npv: Seq<Vec<NodeId>>,
)
    requires
        g.wf(),
        valid_path(*g, path),
        path.len() >= 2 || key_node(*g, path[0]),
        cur == qmid + npv,
        frontier_measure(g.size_bound(), g.size_bound() + 1, qpre) == path_weight(
            g.size_bound(),
            g.size_bound() + 1,
            path,
        ) + frontier_measure(g.size_bound(), g.size_bound() + 1, qmid),
        npv.len() <= g.size_bound(),
        forall|m: int|
            0 <= m < npv.len() ==> valid_path(*g, (#[trigger] npv[m])@) && (npv[m])@.len()
                == path.len() + 1,
    ensures
        frontier_measure(g.size_bound(), g.size_bound() + 1, cur) < frontier_measure(
            g.size_bound(),
            g.size_bound() + 1,
            qpre,
        ),
{
    let cap = g.size_bound();
    let b = cap + 1;
    let l = path.len();
    lemma_path_len_bound(g, path);
    lemma_pow_nat_pos(b, (cap - l) as nat);
    assert(path_weight(cap, b, path) == pow_nat(b, (cap - l) as nat));
    let wext: nat = if l + 1 <= cap {
        pow_nat(b, (cap - l - 1) as nat)
    } else {
        0
    };
    assert forall|m: int| 0 <= m < npv.len() implies path_weight(cap, b, (#[trigger] npv[m])@)
        <= wext by {
        lemma_path_len_bound(g, (npv[m])@);
        assert((npv[m])@.len() == l + 1);
    }
    lemma_measure_uniform_bound(cap, b, npv, wext);
    lemma_measure_concat(cap, b, qmid, npv);
    assert(npv.len() * wext <= cap * wext) by (nonlinear_arith)
        requires
            npv.len() <= cap,
    ;
    if l + 1 <= cap {
        assert(pow_nat(b, (cap - l) as nat) == b * pow_nat(b, (cap - l - 1) as nat));
        lemma_pow_nat_pos(b, (cap - l - 1) as nat);
        assert(cap * wext + wext == b * wext) by (nonlinear_arith)
            requires
                b == cap + 1,
        ;
    } else {
        assert(npv.len() * wext == 0) by (nonlinear_arith)
            requires
                wext == 0,
        ;
    }
}

/// After a first-in first-out pop of the frontier's head and the push of
/// its one-step extensions, the frontier stays sorted by path length within
/// a window of one, and still holds a prefix of every connecting path.
proof fn lemma_bfs_expand(
    g: &GraphMappings,
    source: ValueId,
    target: ValueId,
    qpre: Seq<Vec<NodeId>>,
    cur: Seq<Vec<NodeId>>,
    path: Seq<NodeId>,
    npv: Seq<Vec<NodeId>>,
)
    requires
        qpre.len() > 0,
        path == (qpre[0])@,
        cur == qpre.drop_first() + npv,
        path.len() >= 1,
        path.last() != NodeId::Value(target),
        forall|i: int, j: int|
            0 <= i <= j < qpre.len() ==> (#[trigger] qpre[i])@.len() <= (
            #[trigger] qpre[j])@.len(),
        forall|i: int, j: int|
            0 <= i < qpre.len() && 0 <= j < qpre.len() ==> (#[trigger] qpre[j])@.len() <= (
            #[trigger] qpre[i])@.len() + 1,
        forall|q: Seq<NodeId>|
            #[trigger] connecting_path(*g, source, target, q) ==> exists|i: int|
                0 <= i < qpre.len() && is_path_prefix((#[trigger] qpre[i])@, q),
        forall|m: int| 0 <= m < npv.len() ==> (#[trigger] npv[m])@.len() == path.len() + 1,
        forall|x: NodeId|
            adjacent(*g, path.last(), x) && !path.contains(x) ==> exists|m: int|
                0 <= m < npv.len() && (#[trigger] npv[m])@ == path.push(x),
    ensures
        forall|i: int, j: int|
            0 <= i <= j < cur.len() ==> (#[trigger] cur[i])@.len() <= (#[trigger] cur[j])@.len(),
        forall|i: int, j: int|
            0 <= i < cur.len() && 0 <= j < cur.len() ==> (#[trigger] cur[j])@.len() <= (
            #[trigger] cur[i])@.len() + 1,
        forall|q: Seq<NodeId>|
            #[trigger] connecting_path(*g, source, target, q) ==> exists|i: int|
                0 <= i < cur.len() && is_path_prefix((#[trigger] cur[i])@, q),
{
    let l = path.len();
    let mid = qpre.drop_first().len();
    assert forall|i: int|
        0 <= i < cur.len() implies l <= (#[trigger] cur[i])@.len() && (cur[i])@.len() <= l
        + 1 by {
        if i < mid {
            assert(cur[i] == qpre[i + 1]);
            assert((qpre[0])@.len() <= (qpre[i + 1])@.len());
            assert((qpre[i + 1])@.len() <= (qpre[0])@.len() + 1);
        } else {
            assert(cur[i] == npv[i - mid]);
        }
    }
    assert forall|i: int, j: int|
        0 <= i <= j < cur.len() implies (#[trigger] cur[i])@.len() <= (
    #[trigger] cur[j])@.len() by {
        if i < mid && j < mid {
            assert(cur[i] == qpre[i + 1]);
            assert(cur[j] == qpre[j + 1]);
        } else if i < mid {
            assert(cur[j] == npv[j - mid]);
        }
    }
    assert forall|q: Seq<NodeId>|
        #[trigger] connecting_path(*g, source, target, q) implies exists|i: int|
        0 <= i < cur.len() && is_path_prefix((#[trigger] cur[i])@, q) by {
        let i0 = choose|i: int|
            0 <= i < qpre.len() && is_path_prefix((#[trigger] qpre[i])@, q);
        if i0 > 0 {
            assert(cur[i0 - 1] == qpre[i0]);
            assert(is_path_prefix((cur[i0 - 1])@, q));
        } else {
            assert(is_path_prefix(path, q));
            assert(path.len() < q.len()) by {
                if path.len() == q.len() {
                    assert(path.last() == path[l - 1]);
                    assert(path[l - 1] == q[l - 1]);
                    assert(q.last() == q[l - 1]);
                }
            }
            let x = q[l as int];
            assert(adjacent(*g, q[l - 1], q[l as int]));
            assert(q[l - 1] == path[l - 1]);
            assert(q[l - 1] == path.last());
            assert(!path.contains(x)) by {
                if path.contains(x) {
                    let m2 = choose|m2: int| 0 <= m2 < path.len() && path[m2] == x;
                    assert(q[m2] == path[m2]);
                    assert(q[m2] == q[l as int]);
                }
            }
            let m = choose|m: int|
                0 <= m < npv.len() && (#[trigger] npv[m])@ == path.push(x);
            assert(cur[mid + m] == npv[m]);
            assert(is_path_prefix(path.push(x), q)) by {
                assert(forall|i2: int| 0 <= i2 < l ==> path.push(x)[i2] == path[i2]);
                assert(path.push(x)[l as int] == x);
            }
            assert(is_path_prefix((cur[mid + m])@, q));
        }
    }
}

/// A resumable path producer: an explicit frontier of in-progress paths
/// plus the search target. Successive calls to `next` keep consuming the
/// same frontier, so one search can yield several connecting paths before
/// it is exhausted.
///
/// Cycle filtering is path-local: a node is only excluded from extending a
/// path that already visits it, so the frontier can grow combinatorially
/// on dense graphs. The contracts promise that every yielded path is a
/// valid simple chain from the source to the target, and, for a fresh
/// first-in first-out search, that the first answer is a shortest
/// connecting path and that exhaustion refutes connectivity; what further
/// paths later calls yield is left to the strategy.
pub struct SearchAlgorithmIter<'a, Q> where Q: QueueContainer<Vec<NodeId>> {
    mappings: &'a GraphMappings,
    queue: Q,
    target: ValueId,
    source: Ghost<ValueId>,
}

impl<'a, Q> SearchAlgorithmIter<'a, Q> where Q: QueueContainer<Vec<NodeId>> {
    /// The graph under search.
    pub closed spec fn spec_mappings(&self) -> GraphMappings {
        *self.mappings
    }

    /// The value node every queued path begins at.
    pub closed spec fn spec_source(&self) -> ValueId {
        self.source@
    }

    /// The value node a path must end at to be a solution.
    pub closed spec fn spec_target(&self) -> ValueId {
        self.target
    }

    /// The frontier state.
    pub closed spec fn spec_queue(&self) -> Q {
        self.queue
    }

    /// Every queued path is a valid simple path beginning at the source
    /// value node, over a well-formed graph in which the source has a
    /// recorded edge.
    pub closed spec fn wf(&self) -> bool {
        &&& self.mappings.wf()
        &&& self.mappings.has_value(self.source@.0) || self.source@ == self.target
        &&& forall|i: int|
            0 <= i < self.queue.elems().len() ==> valid_path(
                *self.mappings,
                (#[trigger] self.queue.elems()[i])@,
            )
        &&& forall|i: int|
            0 <= i < self.queue.elems().len() ==> (#[trigger] self.queue.elems()[i])@[0]
                == NodeId::Value(self.source@)
    }

    /// The frontier, for progress reporting.
    pub fn queue(&self) -> (r: &Q)
        ensures
            *r == self.spec_queue(),
    {
        &self.queue
    }

    /// Take the frontier out, ending the search.
    pub fn into_queue(self) -> (r: Q)
        ensures
            r == self.spec_queue(),
    {
        self.queue
    }

    /// Produce the next connecting path, if the frontier still holds one:
    /// pop paths until one ends at the target, expanding every other popped
    /// path by each neighbor of its last node that it does not already
    /// visit. `None` means the frontier is exhausted.
    ///
    /// When the path about to be popped already ends at the target — in
    /// particular when the search begins with source equal to target — it
    /// is returned as is, before any expansion.
    #[verifier::rlimit(100)]
    pub fn next(&mut self) -> (r: Option<Vec<NodeId>>)
        requires
            old(self).wf(),
        ensures
            final(self).wf(),
            final(self).spec_mappings() == old(self).spec_mappings(),
            final(self).spec_source() == old(self).spec_source(),
            final(self).spec_target() == old(self).spec_target(),
            match r {
                Some(p) => {
                    &&& valid_path(old(self).spec_mappings(), p@)
                    &&& p@[0] == NodeId::Value(old(self).spec_source())
                    &&& p@.last() == NodeId::Value(old(self).spec_target())
                },
                None => final(self).spec_queue().elems().len() == 0,
            },
            final(self).spec_queue().steps() >= old(self).spec_queue().steps(),
            (old(self).spec_queue().elems().len() == 1 && (old(self).spec_queue().elems()[0])@.last()
                == NodeId::Value(old(self).spec_target())) ==> (r matches Some(p) && p@ == (old(
                self,
            ).spec_queue().elems()[0])@ && final(self).spec_queue().steps() == sat_inc(old(
                self,
            ).spec_queue().steps())),
            r matches Some(p) ==> ((!Q::lifo() && old(self).spec_queue().elems().len() == 1 && (old(
                self,
            ).spec_queue().elems()[0])@ == seq![NodeId::Value(old(self).spec_source())])
                ==> forall|q: Seq<NodeId>|
                #[trigger] connecting_path(
                    old(self).spec_mappings(),
                    old(self).spec_source(),
                    old(self).spec_target(),
                    q,
                ) ==> p@.len() <= q.len()),
            (r is None && !Q::lifo() && old(self).spec_queue().elems().len() == 1 && (old(
                self,
            ).spec_queue().elems()[0])@ == seq![NodeId::Value(old(self).spec_source())])
                ==> forall|q: Seq<NodeId>|
                !#[trigger] connecting_path(
                    old(self).spec_mappings(),
                    old(self).spec_source(),
                    old(self).spec_target(),
                    q,
                ),
    {
        proof {
            if !Q::lifo() && old(self).queue.elems().len() == 1 && (old(
                self,
            ).queue.elems()[0])@ == seq![NodeId::Value(old(self).source@)] {
                assert forall|q: Seq<NodeId>|
                    #[trigger] connecting_path(
                        *self.mappings,
                        self.source@,
                        self.target,
                        q,
                    ) implies exists|i: int|
                    0 <= i < self.queue.elems().len() && is_path_prefix(
                        (#[trigger] self.queue.elems()[i])@,
                        q,
                    ) by {
                    assert(is_path_prefix((self.queue.elems()[0])@, q));
                }
            }
        }
        loop
            invariant
                self.wf(),
                self.mappings == old(self).mappings,
                self.target == old(self).target,
                self.source == old(self).source,
                self.queue.steps() >= old(self).queue.steps(),
                (old(self).queue.elems().len() == 1 && (old(self).queue.elems()[0])@.last()
                    == NodeId::Value(old(self).target)) ==> self.queue == old(self).queue,
                (!Q::lifo() && old(self).queue.elems().len() == 1 && (old(
                    self,
                ).queue.elems()[0])@ == seq![NodeId::Value(old(self).source@)]) ==> {
                    &&& forall|q: Seq<NodeId>|
                        #[trigger] connecting_path(*self.mappings, self.source@, self.target, q)
                            ==> exists|i: int|
                            0 <= i < self.queue.elems().len() && is_path_prefix(
                                (#[trigger] self.queue.elems()[i])@,
                                q,
                            )
                    &&& forall|i: int, j: int|
                        0 <= i <= j < self.queue.elems().len() ==> (
                        #[trigger] self.queue.elems()[i])@.len() <= (
                        #[trigger] self.queue.elems()[j])@.len()
                    &&& forall|i: int, j: int|
                        0 <= i < self.queue.elems().len() && 0 <= j < self.queue.elems().len()
                            ==> (#[trigger] self.queue.elems()[j])@.len() <= (
                        #[trigger] self.queue.elems()[i])@.len() + 1
                },
            decreases frontier_measure(
                self.mappings.size_bound(),
                self.mappings.size_bound() + 1,
                self.queue.elems(),
            ),
        {
            let ghost qpre = self.queue;
            let popped = self.queue.pop();
            match popped {
                None => {
                    proof {
                        if !Q::lifo() && old(self).queue.elems().len() == 1 && (old(
                            self,
                        ).queue.elems()[0])@ == seq![NodeId::Value(old(self).source@)] {
                            assert(qpre.elems().len() == 0);
                            assert forall|q: Seq<NodeId>|
                                !#[trigger] connecting_path(
                                    *self.mappings,
                                    self.source@,
                                    self.target,
                                    q,
                                ) by {
                                if connecting_path(*self.mappings, self.source@, self.target, q) {
                                    let i = choose|i: int|
                                        0 <= i < qpre.elems().len() && is_path_prefix(
                                            (#[trigger] qpre.elems()[i])@,
                                            q,
                                        );
                                }
                            }
                        }
                    }
                    return None;
                },
                Some(path) => {
                    proof {
                        let n = qpre.elems().len();
                        if Q::lifo() {
                            assert(qpre.elems()[n - 1] == qpre.elems().last());
                            assert(valid_path(*self.mappings, (qpre.elems()[n - 1])@));
                            assert((qpre.elems()[n - 1])@[0] == NodeId::Value(self.source@));
                        } else {
                            assert(qpre.elems()[0] == qpre.elems().first());
                            assert(valid_path(*self.mappings, (qpre.elems()[0])@));
                            assert((qpre.elems()[0])@[0] == NodeId::Value(self.source@));
                        }
                        assert(valid_path(*self.mappings, path@));
                        assert(path@[0] == NodeId::Value(self.source@));
                        // the frontier minus the popped path is still well formed
                        assert forall|i: int|
                            0 <= i < self.queue.elems().len() implies valid_path(
                            *self.mappings,
                            (#[trigger] self.queue.elems()[i])@,
                        ) && (self.queue.elems()[i])@[0] == NodeId::Value(self.source@) by {
                            if Q::lifo() {
                                assert(self.queue.elems()[i] == qpre.elems()[i]);
                            } else {
                                assert(self.queue.elems()[i] == qpre.elems()[i + 1]);
                            }
                        }
                        assert(self.wf());
                    }
                    let last_index = path.len() - 1;
                    let last = path[last_index];
                    proof {
                        assert(last == path@.last());
                    }
                    if last == NodeId::Value(self.target) {
                        proof {
                            if old(self).queue.elems().len() == 1 && (old(
                                self,
                            ).queue.elems()[0])@.last() == NodeId::Value(old(self).target) {
                                assert(qpre == old(self).queue);
                                assert(path == qpre.elems()[0]);
                            }
                            if !Q::lifo() && old(self).queue.elems().len() == 1 && (old(
                                self,
                            ).queue.elems()[0])@ == seq![NodeId::Value(old(self).source@)] {
                                assert(path == qpre.elems()[0]);
                                assert forall|q: Seq<NodeId>|
                                    #[trigger] connecting_path(
                                        *self.mappings,
                                        self.source@,
                                        self.target,
                                        q,
                                    ) implies path@.len() <= q.len() by {
                                    let i = choose|i: int|
                                        0 <= i < qpre.elems().len() && is_path_prefix(
                                            (#[trigger] qpre.elems()[i])@,
                                            q,
                                        );
                                    assert((qpre.elems()[0])@.len() <= (qpre.elems()[i])@.len());
                                    assert((qpre.elems()[i])@.len() <= q.len());
                                }
                            }
                        }
                        return Some(path);
                    }
                    proof {
                        // the popped path does not end at the target, so the
                        // frontier cannot have been the single already-solved path
                        if old(self).queue.elems().len() == 1 && (old(
                            self,
                        ).queue.elems()[0])@.last() == NodeId::Value(old(self).target) {
                            assert(qpre == old(self).queue);
                            assert(path == qpre.elems()[0]);
                            assert(false);
                        }
                    }
                    let ghost qmid = self.queue;
                    match last {
                        NodeId::Step(id) => {
                            proof {
                                assert(path@.len() >= 2);
                                assert(adjacent(
                                    *self.mappings,
                                    path@[last_index - 1],
                                    path@[last_index as int],
                                ));
                                assert(self.mappings.has_step(id.0)) by {
                                    let prev = path@[last_index - 1];
                                    assert(prev matches NodeId::Value(pv) && self
                                        .mappings
                                        .step_has_value(id.0, pv.0));
                                }
                            }
                            let neighbors = self.mappings.step_neighbors(id);
                            let mut new_paths: Vec<Vec<NodeId>> = Vec::new();
                            let mut k: usize = 0;
                            while k < neighbors.len()
                                invariant
                                    k <= neighbors@.len(),
                                    new_paths@.len() <= k,
                                    forall|m: int|
                                        0 <= m < new_paths@.len() ==> (#[trigger] new_paths@[m])@.len()
                                            == path@.len() + 1,
                                    self.mappings.wf(),
                                    valid_path(*self.mappings, path@),
                                    path@[0] == NodeId::Value(self.source@),
                                    path@.last() == NodeId::Step(id),
                                    forall|j: int|
                                        0 <= j < k && !path@.contains(NodeId::Value(
                                            #[trigger] neighbors@[j],
                                        )) ==> exists|m: int|
                                            0 <= m < new_paths@.len() && (
                                            #[trigger] new_paths@[m])@ == path@.push(
                                                NodeId::Value(neighbors@[j]),
                                            ),
                                    forall|j: int|
                                        0 <= j < neighbors@.len() ==> #[trigger] self
                                            .mappings
                                            .step_has_value(id.0, neighbors@[j].0),
                                    forall|m: int|
                                        0 <= m < new_paths@.len() ==> valid_path(
                                            *self.mappings,
                                            (#[trigger] new_paths@[m])@,
                                        ) && (new_paths@[m])@[0] == NodeId::Value(self.source@),
                                decreases neighbors@.len() - k,
                            {
                                let v = neighbors[k];
                                let ghost np0 = new_paths@;
                                if !path_contains(&path, NodeId::Value(v)) {
                                    let mut np = clone_path(&path);
                                    np.push(NodeId::Value(v));
                                    proof {
                                        lemma_push_no_duplicates(path@, NodeId::Value(v));
                                        assert(v == ValueId(v.0));
                                        assert(adjacent(
                                            *self.mappings,
                                            NodeId::Step(id),
                                            NodeId::Value(v),
                                        ));
                                        assert(valid_path(*self.mappings, np@)) by {
                                            assert(np@ == path@.push(NodeId::Value(v)));
                                            assert(np@[0] == path@[0]);
                                            assert forall|i2: int|
                                                0 <= i2 < np@.len() - 1 implies adjacent(
                                                *self.mappings,
                                                #[trigger] np@[i2],
                                                np@[i2 + 1],
                                            ) by {
                                                if i2 < path@.len() - 1 {
                                                    assert(np@[i2] == path@[i2]);
                                                    assert(np@[i2 + 1] == path@[i2 + 1]);
                                                } else {
                                                    assert(np@[i2] == path@.last());
                                                }
                                            }
                                        }
                                    }
                                    new_paths.push(np);
                                    proof {
                                        assert(new_paths@[new_paths@.len() - 1]@ == path@.push(
                                            NodeId::Value(neighbors@[k as int]),
                                        ));
                                    }
                                }
                                proof {
                                    assert forall|j: int|
                                        0 <= j < k + 1 && !path@.contains(NodeId::Value(
                                            (#[trigger] neighbors@[j]),
                                        )) implies exists|m: int|
                                        0 <= m < new_paths@.len() && (#[trigger] new_paths@[m])@
                                            == path@.push(NodeId::Value(neighbors@[j])) by {
                                        if j == k {
                                            assert(new_paths@[new_paths@.len() - 1]@
                                                == path@.push(NodeId::Value(neighbors@[j])));
                                        } else {
                                            let m0 = choose|m0: int|
                                                0 <= m0 < np0.len() && (#[trigger] np0[m0])@
                                                    == path@.push(NodeId::Value(neighbors@[j]));
                                            assert(new_paths@[m0] == np0[m0]);
                                        }
                                    }
                                }
                                k += 1;
                            }
                            let ghost npv = new_paths@;
                            self.queue.extend(new_paths);
                            proof {
                                assert forall|i: int|
                                    0 <= i < self.queue.elems().len() implies valid_path(
                                    *self.mappings,
                                    (#[trigger] self.queue.elems()[i])@,
                                ) && (self.queue.elems()[i])@[0] == NodeId::Value(
                                    self.source@,
                                ) by {
                                    if i < qmid.elems().len() {
                                        assert(self.queue.elems()[i] == qmid.elems()[i]);
                                    }
                                }
                                assert(self.wf());
                                // the frontier's total weight strictly decreased
                                let cap = self.mappings.size_bound();
                                let b = cap + 1;
                                if path@.len() < 2 {
                                    // a single-node path not yet returned means
                                    // the source differs from the target
                                    assert(path@[0] == path@.last());
                                    assert(self.source@ != self.target);
                                    assert(key_node(*self.mappings, path@[0]));
                                }
                                if Q::lifo() {
                                    lemma_measure_last(cap, b, qpre.elems());
                                    assert(qpre.elems().last() == path);
                                    assert(qpre.elems().drop_last() == qmid.elems());
                                } else {
                                    assert(qpre.elems()[0] == path);
                                    assert(qpre.elems().drop_first() == qmid.elems());
                                }
                                assert(frontier_measure(cap, b, qpre.elems()) == path_weight(
                                    cap,
                                    b,
                                    path@,
                                ) + frontier_measure(cap, b, qmid.elems()));
                                assert(self.queue.elems() == qmid.elems() + npv);
                                assert(npv.len() <= cap);
                                lemma_frontier_measure_shrinks(
                                    self.mappings,
                                    qpre.elems(),
                                    qmid.elems(),
                                    self.queue.elems(),
                                    path@,
                                    npv,
                                );
                                if !Q::lifo() && old(self).queue.elems().len() == 1 && (old(
                                    self,
                                ).queue.elems()[0])@ == seq![NodeId::Value(old(self).source@)] {
                                    assert(path == qpre.elems()[0]);
                                    assert(qmid.elems() == qpre.elems().drop_first());
                                    assert forall|x: NodeId|
                                        adjacent(*self.mappings, path@.last(), x)
                                            && !path@.contains(x) implies exists|m: int|
                                        0 <= m < npv.len() && (#[trigger] npv[m])@ == path@.push(
                                            x,
                                        ) by {
                                        assert(x matches NodeId::Value(xv) && self
                                            .mappings
                                            .step_has_value(id.0, xv.0));
                                        let xv = x->Value_0;
                                        assert(neighbors@.contains(ValueId(xv.0)));
                                        let j = choose|j: int|
                                            0 <= j < neighbors@.len() && neighbors@[j] == ValueId(
                                                xv.0,
                                            );
                                        assert(NodeId::Value(neighbors@[j]) == x);
                                        assert(exists|m: int|
                                            0 <= m < npv.len() && (#[trigger] npv[m])@
                                                == path@.push(NodeId::Value(neighbors@[j])));
                                    }
                                    lemma_bfs_expand(
                                        self.mappings,
                                        self.source@,
                                        self.target,
                                        qpre.elems(),
                                        self.queue.elems(),
                                        path@,
                                        npv,
                                    );
                                }
                            }
                        },
                        NodeId::Value(id) => {
                            proof {
                                if path@.len() == 1 {
                                    assert(path@[0] == NodeId::Value(self.source@));
                                    assert(id == self.source@);
                                    // the path was not returned, so the source
                                    // differs from the target and has an edge
                                    assert(id != self.target);
                                    assert(self.mappings.has_value(id.0));
                                } else {
                                    assert(adjacent(
                                        *self.mappings,
                                        path@[last_index - 1],
                                        path@[last_index as int],
                                    ));
                                    let prev = path@[last_index - 1];
                                    assert(prev matches NodeId::Step(ps) && self
                                        .mappings
                                        .step_has_value(ps.0, id.0));
                                    let ps = prev->Step_0;
                                    crate::mappings::lemma_symmetry(self.mappings, ps.0, id.0);
                                    assert(self.mappings.has_value(id.0));
                                }
                            }
                            let neighbors = self.mappings.value_neighbors(id);
                            let mut new_paths: Vec<Vec<NodeId>> = Vec::new();
                            let mut k: usize = 0;
                            while k < neighbors.len()
                                invariant
                                    k <= neighbors@.len(),
                                    new_paths@.len() <= k,
                                    forall|m: int|
                                        0 <= m < new_paths@.len() ==> (#[trigger] new_paths@[m])@.len()
                                            == path@.len() + 1,
                                    self.mappings.wf(),
                                    valid_path(*self.mappings, path@),
                                    path@[0] == NodeId::Value(self.source@),
                                    path@.last() == NodeId::Value(id),
                                    forall|j: int|
                                        0 <= j < k && !path@.contains(NodeId::Step(
                                            #[trigger] neighbors@[j],
                                        )) ==> exists|m: int|
                                            0 <= m < new_paths@.len() && (
                                            #[trigger] new_paths@[m])@ == path@.push(
                                                NodeId::Step(neighbors@[j]),
                                            ),
                                    forall|j: int|
                                        0 <= j < neighbors@.len() ==> #[trigger] self
                                            .mappings
                                            .value_has_step(id.0, neighbors@[j].0),
                                    forall|m: int|
                                        0 <= m < new_paths@.len() ==> valid_path(
                                            *self.mappings,
                                            (#[trigger] new_paths@[m])@,
                                        ) && (new_paths@[m])@[0] == NodeId::Value(self.source@),
                                decreases neighbors@.len() - k,
                            {
                                let s = neighbors[k];
                                let ghost np0 = new_paths@;
                                if !path_contains(&path, NodeId::Step(s)) {
                                    let mut np = clone_path(&path);
                                    np.push(NodeId::Step(s));
                                    proof {
                                        lemma_push_no_duplicates(path@, NodeId::Step(s));
                                        assert(s == StepId(s.0));
                                        crate::mappings::lemma_symmetry(self.mappings, s.0, id.0);
                                        assert(adjacent(
                                            *self.mappings,
                                            NodeId::Value(id),
                                            NodeId::Step(s),
                                        ));
                                        assert(valid_path(*self.mappings, np@)) by {
                                            assert(np@ == path@.push(NodeId::Step(s)));
                                            assert(np@[0] == path@[0]);
                                            assert forall|i2: int|
                                                0 <= i2 < np@.len() - 1 implies adjacent(
                                                *self.mappings,
                                                #[trigger] np@[i2],
                                                np@[i2 + 1],
                                            ) by {
                                                if i2 < path@.len() - 1 {
                                                    assert(np@[i2] == path@[i2]);
                                                    assert(np@[i2 + 1] == path@[i2 + 1]);
                                                } else {
                                                    assert(np@[i2] == path@.last());
                                                }
                                            }
                                        }
                                    }
                                    new_paths.push(np);
                                    proof {
                                        assert(new_paths@[new_paths@.len() - 1]@ == path@.push(
                                            NodeId::Step(neighbors@[k as int]),
                                        ));
                                    }
                                }
                                proof {
                                    assert forall|j: int|
                                        0 <= j < k + 1 && !path@.contains(NodeId::Step(
                                            (#[trigger] neighbors@[j]),
                                        )) implies exists|m: int|
                                        0 <= m < new_paths@.len() && (#[trigger] new_paths@[m])@
                                            == path@.push(NodeId::Step(neighbors@[j])) by {
                                        if j == k {
                                            assert(new_paths@[new_paths@.len() - 1]@
                                                == path@.push(NodeId::Step(neighbors@[j])));
                                        } else {
                                            let m0 = choose|m0: int|
                                                0 <= m0 < np0.len() && (#[trigger] np0[m0])@
                                                    == path@.push(NodeId::Step(neighbors@[j]));
                                            assert(new_paths@[m0] == np0[m0]);
                                        }
                                    }
                                }
                                k += 1;
                            }
                            let ghost npv = new_paths@;
                            self.queue.extend(new_paths);
                            proof {
                                assert forall|i: int|
                                    0 <= i < self.queue.elems().len() implies valid_path(
                                    *self.mappings,
                                    (#[trigger] self.queue.elems()[i])@,
                                ) && (self.queue.elems()[i])@[0] == NodeId::Value(
                                    self.source@,
                                ) by {
                                    if i < qmid.elems().len() {
                                        assert(self.queue.elems()[i] == qmid.elems()[i]);
                                    }
                                }
                                assert(self.wf());
                                // the frontier's total weight strictly decreased
                                let cap = self.mappings.size_bound();
                                let b = cap + 1;
                                if path@.len() < 2 {
                                    // a single-node path not yet returned means
                                    // the source differs from the target
                                    assert(path@[0] == path@.last());
                                    assert(self.source@ != self.target);
                                    assert(key_node(*self.mappings, path@[0]));
                                }
                                if Q::lifo() {
                                    lemma_measure_last(cap, b, qpre.elems());
                                    assert(qpre.elems().last() == path);
                                    assert(qpre.elems().drop_last() == qmid.elems());
                                } else {
                                    assert(qpre.elems()[0] == path);
                                    assert(qpre.elems().drop_first() == qmid.elems());
                                }
                                assert(frontier_measure(cap, b, qpre.elems()) == path_weight(
                                    cap,
                                    b,
                                    path@,
                                ) + frontier_measure(cap, b, qmid.elems()));
                                assert(self.queue.elems() == qmid.elems() + npv);
                                assert(npv.len() <= cap);
                                lemma_frontier_measure_shrinks(
                                    self.mappings,
                                    qpre.elems(),
                                    qmid.elems(),
                                    self.queue.elems(),
                                    path@,
                                    npv,
                                );
                                if !Q::lifo() && old(self).queue.elems().len() == 1 && (old(
                                    self,
                                ).queue.elems()[0])@ == seq![NodeId::Value(old(self).source@)] {
                                    assert(path == qpre.elems()[0]);
                                    assert(qmid.elems() == qpre.elems().drop_first());
                                    assert forall|x: NodeId|
                                        adjacent(*self.mappings, path@.last(), x)
                                            && !path@.contains(x) implies exists|m: int|
                                        0 <= m < npv.len() && (#[trigger] npv[m])@ == path@.push(
                                            x,
                                        ) by {
                                        assert(x matches NodeId::Step(xs) && self
                                            .mappings
                                            .step_has_value(xs.0, id.0));
                                        let xs = x->Step_0;
                                        crate::mappings::lemma_symmetry(self.mappings, xs.0, id.0);
                                        assert(neighbors@.contains(StepId(xs.0)));
                                        let j = choose|j: int|
                                            0 <= j < neighbors@.len() && neighbors@[j] == StepId(
                                                xs.0,
                                            );
                                        assert(NodeId::Step(neighbors@[j]) == x);
                                        assert(exists|m: int|
                                            0 <= m < npv.len() && (#[trigger] npv[m])@
                                                == path@.push(NodeId::Step(neighbors@[j])));
                                    }
                                    lemma_bfs_expand(
                                        self.mappings,
                                        self.source@,
                                        self.target,
                                        qpre.elems(),
                                        self.queue.elems(),
                                        path@,
                                        npv,
                                    );
                                }
                            }
                        },
                    }
                },
            }
        }
    }
}

/// Begin a search for chains connecting the source value to the target
/// value: the frontier starts as the single-node path at the source. The
/// source must have at least one recorded edge; querying an unknown id is
/// a usage error.
pub fn run_search_algorithm<'a, Q>(
    mappings: &'a GraphMappings,
    source: ValueId,
    target: ValueId,
) -> (r: SearchAlgorithmIter<'a, Q>) where Q: QueueContainer<Vec<NodeId>>
    requires
        mappings.wf(),
        mappings.has_value(source.0) || source == target,
    ensures
        r.wf(),
        r.spec_mappings() == *mappings,
        r.spec_source() == source,
        r.spec_target() == target,
        r.spec_queue().elems().len() == 1,
        (r.spec_queue().elems()[0])@ == seq![NodeId::Value(source)],
        r.spec_queue().steps() == 0,
{
    let mut init: Vec<NodeId> = Vec::new();
    init.push(NodeId::Value(source));
    let ghost initv = init@;
    proof {
        assert(initv =~= seq![NodeId::Value(source)]);
        assert(valid_path(*mappings, initv)) by {
            assert(initv.no_duplicates());
            assert(initv[0] is Value);
        }
    }
    let queue = Q::new(init);
    let r = SearchAlgorithmIter { mappings, queue, target, source: Ghost(source) };
    proof {
        assert(r.queue.elems().len() == 1);
        assert((r.queue.elems()[0])@ == initv);
        assert(r.wf());
    }
    r
}

/// Shortest-path property: the first path a fresh breadth-first search
/// returns is no longer than any connecting path of the same graph — in
/// particular no longer than whatever path a depth-first search finds for
/// the same source and target. The first hypothesis is exactly what `next`
/// ensures for a fresh first-in first-out search; the second is what it
/// ensures of any found path.
pub proof fn lemma_breadth_first_no_longer(
    g: GraphMappings,
    source: ValueId,
    target: ValueId,
    bfs_found: Seq<NodeId>,
    other_found: Seq<NodeId>,
)
    requires
        forall|q: Seq<NodeId>|
            #[trigger] connecting_path(g, source, target, q) ==> bfs_found.len() <= q.len(),
        connecting_path(g, source, target, other_found),
    ensures
        bfs_found.len() <= other_found.len(),
{
}

/// Causality round trip: when the reference relation records that a writer
/// step touched address `a` and a reader step touched `a` too, both edges
/// stand in any graph built from those inputs, and from `Value(a)` the
/// traversal graph reaches `Step(reader)` in a single hop.
pub proof fn lemma_causality(
    g: &GraphMappings,
    mem: Seq<Option<FieldElement>>,
    trace: Seq<RegisterFrame>,
    instrs: Seq<Instruction>,
    writer: usize,
    reader: usize,
    a: usize,
)
    requires
        g.wf(),
        forall|s: usize, v: usize| #[trigger] g.edge(s, v) <==> spec_edge(mem, trace, instrs, s, v),
        spec_edge(mem, trace, instrs, writer, a),
        spec_edge(mem, trace, instrs, reader, a),
    ensures
        g.edge(writer, a),
        g.edge(reader, a),
        valid_path(*g, seq![NodeId::Value(ValueId(a)), NodeId::Step(StepId(reader))]),
{
    assert(g.edge(writer, a));
    assert(g.edge(reader, a));
    let p = seq![NodeId::Value(ValueId(a)), NodeId::Step(StepId(reader))];
    assert(adjacent(*g, p[0], p[1]));
    assert(p.no_duplicates());
}

} // verus!
