use vstd::prelude::*;
use crate::ir::{BasicBlock, BasicBlockId, Function};
use std::collections::HashMap;

verus! {

broadcast use {vstd::std_specs::hash::group_hash_axioms, vstd::seq_lib::lemma_seq_contains_after_push};

/// The failures of building or updating a control flow graph.
#[derive(Clone, Copy, Debug, PartialEq, Eq, Structural)]
pub enum CfgError {
    /// A query or an update named a block that the graph has no node for.
    UnknownBlock,
    /// A recorded edge leads to a block that the graph has no node for.
    DanglingEdge,
    /// An edge would give a block a third successor or a third predecessor.
    DegreeExceeded,
}

/// A directed edge between two blocks: (source, destination).
pub type Edge = (BasicBlockId, BasicBlockId);

/// The edges of `edges` whose source is not `a`.
pub open spec fn drop_source(edges: Set<Edge>, a: BasicBlockId) -> Set<Edge> {
    edges.filter(|e: Edge| e.0 != a)
}

/// The edges from `a` to each of `dests`.
pub open spec fn out_edges(a: BasicBlockId, dests: Seq<BasicBlockId>) -> Set<Edge> {
    Set::new(|e: Edge| e.0 == a && dests.contains(e.1))
}

/// The blocks that an edge of `edges` starts or ends at.
pub open spec fn endpoints(edges: Set<Edge>) -> Set<BasicBlockId> {
    Set::new(|x: BasicBlockId| exists|y: BasicBlockId|
        #![trigger edges.contains((x, y))]
        #![trigger edges.contains((y, x))]
        edges.contains((x, y)) || edges.contains((y, x)))
}

/// Some block has three distinct successors, or three distinct predecessors, in `edges`.
pub open spec fn exceeds_degree(edges: Set<Edge>) -> bool {
    exists|t: BasicBlockId, x: BasicBlockId, y: BasicBlockId, z: BasicBlockId|
        #![trigger edges.contains((t, x)), edges.contains((t, y)), edges.contains((t, z))]
        #![trigger edges.contains((x, t)), edges.contains((y, t)), edges.contains((z, t))]
        x != y && y != z && x != z && ((edges.contains((t, x)) && edges.contains((t, y))
            && edges.contains((t, z))) || (edges.contains((x, t)) && edges.contains((y, t))
            && edges.contains((z, t))))
}

/// `a` has two distinct successors in `edges`.
pub open spec fn two_out_of(edges: Set<Edge>, a: BasicBlockId) -> bool {
    exists|x: BasicBlockId, y: BasicBlockId|
        #![trigger edges.contains((a, x)), edges.contains((a, y))]
        x != y && edges.contains((a, x)) && edges.contains((a, y))
}

/// `b` has two distinct predecessors in `edges`.
pub open spec fn two_into(edges: Set<Edge>, b: BasicBlockId) -> bool {
    exists|x: BasicBlockId, y: BasicBlockId|
        #![trigger edges.contains((x, b)), edges.contains((y, b))]
        x != y && edges.contains((x, b)) && edges.contains((y, b))
}

/// Adding the edge `a -> b` to `edges` is refused: `a` already has two
/// successors or `b` already has two predecessors.
pub open spec fn edge_refused(edges: Set<Edge>, a: BasicBlockId, b: BasicBlockId) -> bool {
    two_out_of(edges, a) || two_into(edges, b)
}

/// Adding the edges from `a` to each of `dests`, one after another in that
/// order, starting from `edges`, is never refused.
pub open spec fn adds_in_order(edges: Set<Edge>, a: BasicBlockId, dests: Seq<BasicBlockId>) -> bool
    decreases dests.len(),
{
    if dests.len() == 0 {
        true
    } else {
        !edge_refused(edges, a, dests[0]) && adds_in_order(
            edges.insert((a, dests[0])),
            a,
            dests.drop_first(),
        )
    }
}

/// Visiting the blocks of `order` one after another, starting from `edges`, and
/// adding the edges out of each in the order of its terminator's destinations,
/// is never refused.
pub open spec fn builds_in_order(edges: Set<Edge>, func: &Function, order: Seq<BasicBlockId>) -> bool
    decreases order.len(),
{
    if order.len() == 0 {
        true
    } else {
        let a = order[0];
        let ds = func.dfg.block_successors(a);
        adds_in_order(edges, a, ds) && builds_in_order(
            edges.union(out_edges(a, ds)),
            func,
            order.drop_first(),
        )
    }
}

/// `order` lists each block of `func` reachable from its entry block once, the
/// entry block first.
pub open spec fn visiting_order(func: &Function, order: Seq<BasicBlockId>) -> bool {
    &&& order.no_duplicates()
    &&& order.len() > 0
    &&& order[0] == func.entry
    &&& forall|b: BasicBlockId| #[trigger] order.contains(b) <==> func.reachable(b)
}

/// The blocks of `func` reachable from its entry block.
pub open spec fn reachable_set(func: &Function) -> Set<BasicBlockId> {
    Set::new(|b: BasicBlockId| func.reachable(b))
}

/// The edges that the terminators of the reachable blocks of `func` describe.
pub open spec fn function_edges(func: &Function) -> Set<Edge> {
    Set::new(|e: Edge| func.reachable(e.0) && func.step(e.0, e.1))
}

/// `edges` with the edges out of `id` replaced by those that its terminator in
/// `func` describes.
pub open spec fn rewired(edges: Set<Edge>, func: &Function, id: BasicBlockId) -> Set<Edge> {
    drop_source(edges, id).union(out_edges(id, func.dfg.block_successors(id)))
}

/// `after` is `before` with the edges out of `id` recomputed from `func`.
pub open spec fn recomputed(
    before: ControlFlowGraph,
    after: ControlFlowGraph,
    func: &Function,
    id: BasicBlockId,
) -> bool {
    &&& after.nodes() == before.nodes().union(touched(id, func.dfg.block_successors(id)))
    &&& after.edges() == rewired(before.edges(), func, id)
}

/// The blocks that an edge from `a` to each of `dests` touches.
pub open spec fn touched(a: BasicBlockId, dests: Seq<BasicBlockId>) -> Set<BasicBlockId> {
    if dests.len() == 0 {
        Set::empty()
    } else {
        dests.to_set().insert(a)
    }
}

proof fn lemma_endpoints_out(a: BasicBlockId, dests: Seq<BasicBlockId>)
    ensures
        endpoints(out_edges(a, dests)) == touched(a, dests),
{
    let o = out_edges(a, dests);
    assert forall|x: BasicBlockId| endpoints(o).contains(x) <==> touched(a, dests).contains(x) by {
        if touched(a, dests).contains(x) {
            if x == a {
                assert(o.contains((a, dests[0])));
            } else {
                assert(o.contains((a, x)));
            }
        }
    }
    assert(endpoints(o) =~= touched(a, dests));
}

proof fn lemma_endpoints_union(e1: Set<Edge>, e2: Set<Edge>)
    ensures
        endpoints(e1.union(e2)) == endpoints(e1).union(endpoints(e2)),
{
    assert forall|x: BasicBlockId| endpoints(e1.union(e2)).contains(x) implies endpoints(e1).union(endpoints(e2)).contains(x) by {
        let y = choose|y: BasicBlockId|
        #![trigger e1.union(e2).contains((x, y))]
        #![trigger e1.union(e2).contains((y, x))]
        e1.union(e2).contains((x, y)) || e1.union(e2).contains((y, x));
        if e1.contains((x, y)) || e1.contains((y, x)) {
            assert(endpoints(e1).contains(x));
        } else {
            assert(endpoints(e2).contains(x));
        }
    }
    assert forall|x: BasicBlockId| endpoints(e1).union(endpoints(e2)).contains(x) implies endpoints(e1.union(e2)).contains(x) by {
        if endpoints(e1).contains(x) {
            let y = choose|y: BasicBlockId|
        #![trigger e1.contains((x, y))]
        #![trigger e1.contains((y, x))]
        e1.contains((x, y)) || e1.contains((y, x));
            assert(e1.union(e2).contains((x, y)) || e1.union(e2).contains((y, x)));
        } else {
            let y = choose|y: BasicBlockId|
        #![trigger e2.contains((x, y))]
        #![trigger e2.contains((y, x))]
        e2.contains((x, y)) || e2.contains((y, x));
            assert(e1.union(e2).contains((x, y)) || e1.union(e2).contains((y, x)));
        }
    }
    assert(endpoints(e1.union(e2)) =~= endpoints(e1).union(endpoints(e2)));
}

proof fn lemma_three_in_two(v: Seq<BasicBlockId>, x: BasicBlockId, y: BasicBlockId, z: BasicBlockId)
    requires
        v.len() <= 2,
        v.contains(x),
        v.contains(y),
        v.contains(z),
    ensures
        x == y || y == z || x == z,
{
    let i = choose|i: int| 0 <= i < v.len() && v[i] == x;
    let j = choose|j: int| 0 <= j < v.len() && v[j] == y;
    let k = choose|k: int| 0 <= k < v.len() && v[k] == z;
}

/// The successors and predecessors of one block, each without repetition.
struct CfgNode {
    predecessors: Vec<BasicBlockId>,
    successors: Vec<BasicBlockId>,
}

impl CfgNode {
    spec fn wf(&self) -> bool {
        &&& self.predecessors@.no_duplicates()
        &&& self.predecessors@.len() <= 2
        &&& self.successors@.no_duplicates()
        &&& self.successors@.len() <= 2
    }

    fn empty() -> (r: CfgNode)
        ensures
            r.wf(),
            r.predecessors@.len() == 0,
            r.successors@.len() == 0,
    {
        CfgNode { predecessors: Vec::new(), successors: Vec::new() }
    }
}

/// Whether `v` holds `x`.
fn holds(v: &Vec<BasicBlockId>, x: BasicBlockId) -> (r: bool)
    ensures
        r == v@.contains(x),
{
    let mut i: usize = 0;
    while i < v.len()
        invariant
            i <= v@.len(),
            forall|j: int| 0 <= j < i ==> v@[j] != x,
        decreases v@.len() - i,
    {
        if v[i] == x {
            return true;
        }
        i = i + 1;
    }
    false
}

/// A copy of `v`.
fn copy_ids(v: &Vec<BasicBlockId>) -> (r: Vec<BasicBlockId>)
    ensures
        r@ == v@,
{
    let mut r: Vec<BasicBlockId> = Vec::new();
    let mut i: usize = 0;
    while i < v.len()
        invariant
            i <= v@.len(),
            r@ == v@.take(i as int),
        decreases v@.len() - i,
    {
        r.push(v[i]);
        i = i + 1;
        assert(r@ =~= v@.take(i as int));
    }
    assert(v@.take(v@.len() as int) =~= v@);
    r
}

/// `v` without `x`.
fn without(v: &Vec<BasicBlockId>, x: BasicBlockId) -> (r: Vec<BasicBlockId>)
    requires
        v@.no_duplicates(),
    ensures
        r@.no_duplicates(),
        r@.len() <= v@.len(),
        forall|y: BasicBlockId| #[trigger] r@.contains(y) <==> (v@.contains(y) && y != x),
{
    let mut r: Vec<BasicBlockId> = Vec::new();
    let mut i: usize = 0;
    while i < v.len()
        invariant
            i <= v@.len(),
            v@.no_duplicates(),
            r@.no_duplicates(),
            r@.len() <= i,
            forall|y: BasicBlockId|
                #[trigger] r@.contains(y) <==> (v@.take(i as int).contains(y) && y != x),
        decreases v@.len() - i,
    {
        let y = v[i];
        proof {
            assert(v@.take(i as int + 1) =~= v@.take(i as int).push(y));
            assert(!v@.take(i as int).contains(y));
        }
        if y != x {
            proof {
                assert(!r@.contains(y));
            }
            r.push(y);
        }
        i = i + 1;
    }
    assert(v@.take(v@.len() as int) =~= v@);
    r
}

/// The successor and predecessor sets of the blocks of one function.
pub struct ControlFlowGraph {
    data: HashMap<u32, CfgNode>,
}

impl ControlFlowGraph {
    /// The graph holds a node for `b`.
    pub closed spec fn has(&self, b: BasicBlockId) -> bool {
        self.data@.contains_key(b.0)
    }

    /// `b` is recorded as a successor of `a`.
    pub closed spec fn is_succ(&self, a: BasicBlockId, b: BasicBlockId) -> bool {
        self.has(a) && self.data@[a.0].successors@.contains(b)
    }

    /// `a` is recorded as a predecessor of `b`.
    pub closed spec fn is_pred(&self, b: BasicBlockId, a: BasicBlockId) -> bool {
        self.has(b) && self.data@[b.0].predecessors@.contains(a)
    }

    /// The number of successors recorded for `a`.
    pub closed spec fn out_degree(&self, a: BasicBlockId) -> nat {
        if self.has(a) {
            self.data@[a.0].successors@.len()
        } else {
            0
        }
    }

    /// The number of predecessors recorded for `b`.
    pub closed spec fn in_degree(&self, b: BasicBlockId) -> nat {
        if self.has(b) {
            self.data@[b.0].predecessors@.len()
        } else {
            0
        }
    }

    /// The blocks that the graph holds a node for.
    pub open spec fn nodes(&self) -> Set<BasicBlockId> {
        Set::new(|b: BasicBlockId| self.has(b))
    }

    /// The recorded successors of `a`.
    pub open spec fn succs(&self, a: BasicBlockId) -> Set<BasicBlockId> {
        Set::new(|b: BasicBlockId| self.is_succ(a, b))
    }

    /// The recorded predecessors of `b`.
    pub open spec fn preds(&self, b: BasicBlockId) -> Set<BasicBlockId> {
        Set::new(|a: BasicBlockId| self.is_pred(b, a))
    }

    /// The recorded edges, as seen from their sources.
    pub open spec fn edges(&self) -> Set<Edge> {
        Set::new(|e: Edge| self.is_succ(e.0, e.1))
    }

    /// Each node's sets are free of repetition and hold at most two blocks, and
    /// the successor and predecessor sets describe the same edges.
    pub closed spec fn wf(&self) -> bool {
        &&& forall|k: u32| #[trigger] self.data@.contains_key(k) ==> self.data@[k].wf()
        &&& forall|a: BasicBlockId, b: BasicBlockId| #[trigger] self.is_succ(a, b) ==> self.is_pred(b, a)
        &&& forall|a: BasicBlockId, b: BasicBlockId| #[trigger] self.is_pred(b, a) ==> self.is_succ(a, b)
    }

    proof fn lemma_wf_degrees(&self, a: BasicBlockId)
        requires
            self.wf(),
        ensures
            self.out_degree(a) <= 2,
            self.in_degree(a) <= 2,
            self.has(a) ==> self.data@[a.0].successors@.no_duplicates()
                && self.data@[a.0].predecessors@.no_duplicates(),
    {
        if self.has(a) {
            assert(self.data@.contains_key(a.0));
        }
    }

    proof fn lemma_counts(&self, a: BasicBlockId)
        requires
            self.wf(),
        ensures
            self.succs(a).len() == self.out_degree(a),
            self.preds(a).len() == self.in_degree(a),
            two_out_of(self.edges(), a) <==> self.out_degree(a) >= 2,
            two_into(self.edges(), a) <==> self.in_degree(a) >= 2,
    {
        self.lemma_wf_degrees(a);
        let e = self.edges();
        let so = self.out_seq(a);
        let si = self.in_seq(a);
        assert(self.succs(a) =~= so.to_set());
        assert(self.preds(a) =~= si.to_set());
        so.unique_seq_to_set();
        si.unique_seq_to_set();
        if two_out_of(e, a) {
            let (x, y) = choose|x: BasicBlockId, y: BasicBlockId|
                #![trigger e.contains((a, x)), e.contains((a, y))]
                x != y && e.contains((a, x)) && e.contains((a, y));
            assert(self.is_succ(a, x) && self.is_succ(a, y));
            let i = choose|i: int| 0 <= i < so.len() && so[i] == x;
            let j = choose|j: int| 0 <= j < so.len() && so[j] == y;
        }
        if so.len() >= 2 {
            assert(self.is_succ(a, so[0]) && self.is_succ(a, so[1]));
            assert(e.contains((a, so[0])) && e.contains((a, so[1])));
        }
        if two_into(e, a) {
            let (x, y) = choose|x: BasicBlockId, y: BasicBlockId|
                #![trigger e.contains((x, a)), e.contains((y, a))]
                x != y && e.contains((x, a)) && e.contains((y, a));
            assert(self.is_pred(a, x) && self.is_pred(a, y));
            let i = choose|i: int| 0 <= i < si.len() && si[i] == x;
            let j = choose|j: int| 0 <= j < si.len() && si[j] == y;
        }
        if si.len() >= 2 {
            assert(self.is_pred(a, si[0]) && self.is_pred(a, si[1]));
            assert(e.contains((si[0], a)) && e.contains((si[1], a)));
        }
    }

    /// Records the edge `from -> to`. The edge is refused, and nothing changes,
    /// when `from` already has two successors or `to` already has two
    /// predecessors, whether or not the edge is already recorded.
    pub fn add_edge(&mut self, from: BasicBlockId, to: BasicBlockId) -> (r: Result<(), CfgError>)
        requires
            old(self).wf(),
        ensures
            final(self).wf(),
            r is Err <==> (old(self).succs(from).len() >= 2 || old(self).preds(to).len() >= 2),
            r is Err <==> edge_refused(old(self).edges(), from, to),
            r is Ok ==> final(self).nodes() == old(self).nodes().insert(from).insert(to)
                && final(self).edges() == old(self).edges().insert((from, to)),
            r is Err ==> r == Err::<(), CfgError>(CfgError::DegreeExceeded)
                && final(self).nodes() == old(self).nodes()
                && final(self).edges() == old(self).edges(),
    {
        proof {
            self.lemma_wf_degrees(from);
            self.lemma_wf_degrees(to);
            self.lemma_counts(from);
            self.lemma_counts(to);
        }
        let (already, succ_len) = match self.data.get(&from.0) {
            Some(node) => (holds(&node.successors, to), node.successors.len()),
            None => (false, 0),
        };
        let pred_len = match self.data.get(&to.0) {
            Some(node) => node.predecessors.len(),
            None => 0,
        };
        if succ_len >= 2 || pred_len >= 2 {
            return Err(CfgError::DegreeExceeded);
        }
        if already {
            proof {
                assert(self.is_succ(from, to));
                assert(self.has(to));
                assert(self.nodes() =~= self.nodes().insert(from).insert(to));
                assert(self.edges() =~= self.edges().insert((from, to)));
            }
            return Ok(());
        }
        let ghost old_self = *self;
        assert(!old_self.is_pred(to, from));
        let mut source = match self.data.remove(&from.0) {
            Some(node) => node,
            None => CfgNode::empty(),
        };
        source.successors.push(to);
        self.data.insert(from.0, source);
        let ghost mid = *self;
        let mut target = match self.data.remove(&to.0) {
            Some(node) => node,
            None => CfgNode::empty(),
        };
        target.predecessors.push(from);
        self.data.insert(to.0, target);
        proof {
            assert forall|a: BasicBlockId, b: BasicBlockId|
                #[trigger] self.is_succ(a, b) <==> (old_self.is_succ(a, b) || (a == from && b == to)) by {
                if a == from {
                    assert(self.data@[a.0].successors@ == old_self.out_seq(a).push(to));
                } else if a.0 != to.0 {
                    assert(self.data@[a.0] == old_self.data@[a.0]);
                } else {
                    assert(self.data@[a.0].successors@ == old_self.out_seq(a));
                }
            }
            assert forall|a: BasicBlockId, b: BasicBlockId|
                #[trigger] self.is_pred(b, a) <==> (old_self.is_pred(b, a) || (a == from && b == to)) by {
                if b == to {
                    assert(self.data@[b.0].predecessors@ == old_self.in_seq(b).push(from));
                } else if b.0 != from.0 {
                    assert(self.data@[b.0] == old_self.data@[b.0]);
                } else {
                    assert(self.data@[b.0].predecessors@ == old_self.in_seq(b));
                }
            }
            assert forall|k: u32| #[trigger] self.data@.contains_key(k) implies self.data@[k].wf() by {
                if k != from.0 && k != to.0 {
                    assert(old_self.data@.contains_key(k));
                }
                if k == from.0 {
                    let f = BasicBlockId(k);
                    assert(!old_self.out_seq(f).contains(to));
                    if old_self.has(f) {
                        assert(old_self.data@.contains_key(k));
                    }
                }
                if k == to.0 {
                    let t = BasicBlockId(k);
                    assert(!old_self.in_seq(t).contains(from));
                    if old_self.has(t) {
                        assert(old_self.data@.contains_key(k));
                    }
                }
            }
            assert forall|a: BasicBlockId, b: BasicBlockId| #[trigger] self.is_succ(a, b) implies self.is_pred(b, a) by {
                if old_self.is_succ(a, b) {
                    assert(old_self.is_pred(b, a));
                }
            }
            assert forall|a: BasicBlockId, b: BasicBlockId| #[trigger] self.is_pred(b, a) implies self.is_succ(a, b) by {
                if old_self.is_pred(b, a) {
                    assert(old_self.is_succ(a, b));
                }
            }
            assert(self.nodes() =~= old_self.nodes().insert(from).insert(to));
            assert(self.edges() =~= old_self.edges().insert((from, to)));
        }
        Ok(())
    }

    /// A well-formed graph keeps the degree bound.
    proof fn lemma_wf_within_degree(&self)
        requires
            self.wf(),
        ensures
            !exceeds_degree(self.edges()),
    {
        let e = self.edges();
        if exceeds_degree(e) {
            let (t, x, y, z) = choose|t: BasicBlockId, x: BasicBlockId, y: BasicBlockId, z: BasicBlockId|
                #![trigger e.contains((t, x)), e.contains((t, y)), e.contains((t, z))]
                #![trigger e.contains((x, t)), e.contains((y, t)), e.contains((z, t))]
                x != y && y != z && x != z && ((e.contains((t, x)) && e.contains((t, y))
                    && e.contains((t, z))) || (e.contains((x, t)) && e.contains((y, t))
                    && e.contains((z, t))));
            self.lemma_wf_degrees(t);
            if e.contains((t, x)) && e.contains((t, y)) && e.contains((t, z)) {
                let v = self.data@[t.0].successors@;
                lemma_three_in_two(v, x, y, z);
            } else {
                assert(self.is_pred(t, x) && self.is_pred(t, y) && self.is_pred(t, z));
                let v = self.data@[t.0].predecessors@;
                lemma_three_in_two(v, x, y, z);
            }
        }
    }

    /// Records an edge from `id` to each destination of `block`'s terminator, in order.
    fn compute_block(&mut self, id: BasicBlockId, block: &BasicBlock) -> (r: Result<(), CfgError>)
        requires
            old(self).wf(),
        ensures
            final(self).wf(),
            old(self).nodes().subset_of(final(self).nodes()),
            r is Ok ==> final(self).nodes() == old(self).nodes().union(
                endpoints(out_edges(id, block.successor_seq())),
            ) && final(self).edges() == old(self).edges().union(out_edges(id, block.successor_seq())),
            r is Ok <==> adds_in_order(old(self).edges(), id, block.successor_seq()),
            r is Err ==> r == Err::<(), CfgError>(CfgError::DegreeExceeded),
    {
        let dests = block.successors();
        let ghost ds = dests@;
        let ghost start = *self;
        assert(ds.skip(0) =~= ds);
        let mut k: usize = 0;
        while k < dests.len()
            invariant
                self.wf(),
                k <= ds.len(),
                dests@ == ds,
                ds == block.successor_seq(),
                start == *old(self),
                self.nodes() == start.nodes().union(touched(id, ds.take(k as int))),
                self.edges() == start.edges().union(out_edges(id, ds.take(k as int))),
                start.nodes().subset_of(self.nodes()),
                adds_in_order(start.edges(), id, ds) == adds_in_order(self.edges(), id, ds.skip(k as int)),
            decreases ds.len() - k,
        {
            let d = dests[k];
            let ghost before = *self;
            let ghost take_k = ds.take(k as int);
            let ghost take_k1 = ds.take(k as int + 1);
            assert(take_k1 =~= take_k.push(d));
            assert(out_edges(id, take_k1) =~= out_edges(id, take_k).insert((id, d)));
            assert(touched(id, take_k1) =~= touched(id, take_k).insert(id).insert(d));
            assert(ds.skip(k as int)[0] == d);
            assert(ds.skip(k as int).drop_first() =~= ds.skip(k as int + 1));
            assert(start.edges().union(out_edges(id, take_k1)) =~= before.edges().insert((id, d)));
            match self.add_edge(id, d) {
                Ok(()) => {},
                Err(e) => {
                    return Err(e);
                },
            }
            k = k + 1;
        }
        proof {
            assert(ds.skip(ds.len() as int) =~= Seq::<BasicBlockId>::empty());
            assert(ds.take(ds.len() as int) =~= ds);
            lemma_endpoints_out(id, ds);
        }
        Ok(())
    }

    /// Clears the successors of `id` and removes `id` from the predecessors of
    /// each block that was one of them.
    fn invalidate_block_successors(&mut self, id: BasicBlockId) -> (r: Result<(), CfgError>)
        requires
            old(self).wf(),
        ensures
            final(self).wf(),
            !old(self).has(id) ==> r == Err::<(), CfgError>(CfgError::UnknownBlock)
                && final(self).nodes() == old(self).nodes()
                && final(self).edges() == old(self).edges(),
            old(self).has(id) ==> r is Ok && final(self).nodes() == old(self).nodes()
                && final(self).edges() == drop_source(old(self).edges(), id),
    {
        if !self.data.contains_key(&id.0) {
            return Err(CfgError::UnknownBlock);
        }
        let ghost start = *self;
        let node = match self.data.remove(&id.0) {
            Some(node) => node,
            None => {
                return Err(CfgError::UnknownBlock);
            },
        };
        assert(start.data@.contains_key(id.0));
        let old_successors = node.successors;
        self.data.insert(id.0, CfgNode { predecessors: node.predecessors, successors: Vec::new() });
        proof {
            assert forall|a: BasicBlockId, b: BasicBlockId|
                #[trigger] self.is_succ(a, b) <==> (start.is_succ(a, b) && a != id) by {
                if a != id {
                    assert(self.data@[a.0] == start.data@[a.0]);
                }
            }
            assert forall|a: BasicBlockId, b: BasicBlockId|
                #[trigger] self.is_pred(b, a) <==> start.is_pred(b, a) by {
                if b != id {
                    assert(self.data@[b.0] == start.data@[b.0]);
                }
            }
            assert(old_successors@.take(0) =~= Seq::<BasicBlockId>::empty());
        }
        let mut i: usize = 0;
        while i < old_successors.len()
            invariant
                start.wf(),
                start.has(id),
                old_successors@ == start.data@[id.0].successors@,
                i <= old_successors@.len(),
                forall|k: u32| #[trigger] self.data@.contains_key(k) <==> start.data@.contains_key(k),
                forall|k: u32| #[trigger] self.data@.contains_key(k) ==> self.data@[k].wf(),
                forall|a: BasicBlockId, b: BasicBlockId|
                    #[trigger] self.is_succ(a, b) <==> (start.is_succ(a, b) && a != id),
                forall|a: BasicBlockId, b: BasicBlockId|
                    #[trigger] self.is_pred(b, a) <==> (start.is_pred(b, a) && !(a == id
                        && old_successors@.take(i as int).contains(b))),
            decreases old_successors@.len() - i,
        {
            let s = old_successors[i];
            proof {
                assert(start.data@.contains_key(id.0));
                assert(start.is_succ(id, s));
                assert(start.is_pred(s, id));
                assert(self.data@.contains_key(s.0));
                assert(old_successors@.take(i as int + 1) =~= old_successors@.take(i as int).push(s));
            }
            let ghost before = *self;
            let node = match self.data.remove(&s.0) {
                Some(node) => node,
                None => {
                    return Err(CfgError::DanglingEdge);
                },
            };
            assert(before.data@.contains_key(s.0));
            let predecessors = without(&node.predecessors, id);
            self.data.insert(s.0, CfgNode { predecessors, successors: node.successors });
            proof {
                assert forall|k: u32| #[trigger] self.data@.contains_key(k) implies self.data@[k].wf() by {
                    if k != s.0 {
                        assert(before.data@.contains_key(k));
                    }
                }
                assert forall|a: BasicBlockId, b: BasicBlockId|
                    #[trigger] self.is_succ(a, b) <==> before.is_succ(a, b) by {
                    if a.0 != s.0 {
                        assert(self.data@[a.0] == before.data@[a.0]);
                    }
                }
                assert forall|a: BasicBlockId, b: BasicBlockId|
                    #[trigger] self.is_pred(b, a) <==> (before.is_pred(b, a) && !(a == id && b == s)) by {
                    if b.0 != s.0 {
                        assert(self.data@[b.0] == before.data@[b.0]);
                    }
                }
            }
            i = i + 1;
        }
        proof {
            assert(old_successors@.take(old_successors@.len() as int) =~= old_successors@);
            assert forall|a: BasicBlockId, b: BasicBlockId|
                #[trigger] self.is_pred(b, a) <==> (start.is_pred(b, a) && a != id) by {
                if a == id && start.is_pred(b, a) {
                    assert(start.is_succ(a, b));
                }
            }
            assert forall|a: BasicBlockId, b: BasicBlockId| #[trigger] self.is_succ(a, b) implies self.is_pred(b, a) by {
                assert(start.is_pred(b, a));
            }
            assert forall|a: BasicBlockId, b: BasicBlockId| #[trigger] self.is_pred(b, a) implies self.is_succ(a, b) by {
                assert(start.is_succ(a, b));
            }
            assert(self.nodes() =~= start.nodes());
            assert(self.edges() =~= drop_source(start.edges(), id));
        }
        Ok(())
    }

    /// `d` has two distinct recorded predecessors other than `id`.
    pub closed spec fn has_two_other_preds(&self, d: BasicBlockId, id: BasicBlockId) -> bool {
        exists|x: BasicBlockId, y: BasicBlockId|
            x != y && x != id && y != id && #[trigger] self.is_pred(d, x) && #[trigger] self.is_pred(d, y)
    }

    /// Whether `d` has two recorded predecessors other than `id`.
    fn two_other_preds(&self, d: BasicBlockId, id: BasicBlockId) -> (r: bool)
        requires
            self.wf(),
        ensures
            r == self.has_two_other_preds(d, id),
    {
        proof {
            self.lemma_wf_degrees(d);
        }
        match self.data.get(&d.0) {
            Some(node) => {
                let v = &node.predecessors;
                let r = v.len() == 2 && v[0] != id && v[1] != id;
                proof {
                    let s = v@;
                    if r {
                        assert(self.is_pred(d, s[0]) && self.is_pred(d, s[1]));
                    }
                    if self.has_two_other_preds(d, id) {
                        let (x, y) = choose|x: BasicBlockId, y: BasicBlockId|
                            x != y && x != id && y != id && #[trigger] self.is_pred(d, x) && #[trigger] self.is_pred(d, y);
                        let i = choose|i: int| 0 <= i < s.len() && s[i] == x;
                        let j = choose|j: int| 0 <= j < s.len() && s[j] == y;
                    }
                }
                r
            },
            None => false,
        }
    }

    /// `d` has a recorded predecessor other than `id`.
    pub closed spec fn has_other_pred(&self, d: BasicBlockId, id: BasicBlockId) -> bool {
        exists|x: BasicBlockId| x != id && #[trigger] self.is_pred(d, x)
    }

    /// Whether `d` has a recorded predecessor other than `id`.
    fn one_other_pred(&self, d: BasicBlockId, id: BasicBlockId) -> (r: bool)
        requires
            self.wf(),
        ensures
            r == self.has_other_pred(d, id),
    {
        proof {
            self.lemma_wf_degrees(d);
        }
        match self.data.get(&d.0) {
            Some(node) => {
                let v = &node.predecessors;
                let r = (v.len() >= 1 && v[0] != id) || (v.len() == 2 && v[1] != id);
                proof {
                    let s = v@;
                    if r {
                        if s.len() >= 1 && s[0] != id {
                            assert(self.is_pred(d, s[0]));
                        } else {
                            assert(self.is_pred(d, s[1]));
                        }
                    }
                    if self.has_other_pred(d, id) {
                        let x = choose|x: BasicBlockId| x != id && #[trigger] self.is_pred(d, x);
                        let i = choose|i: int| 0 <= i < s.len() && s[i] == x;
                    }
                }
                r
            },
            None => false,
        }
    }

    /// With the edges out of `id` cleared, adding the edges to `ds` in order is
    /// refused exactly when the first destination has two other predecessors, or
    /// the second one has two (one, when it repeats the first) other predecessors.
    proof fn lemma_refusal_after_clearing(&self, id: BasicBlockId, ds: Seq<BasicBlockId>)
        requires
            self.wf(),
            ds.len() <= 2,
        ensures
            adds_in_order(drop_source(self.edges(), id), id, ds) <==> !(
                (ds.len() >= 1 && self.has_two_other_preds(ds[0], id))
                || (ds.len() == 2 && (if ds[1] == ds[0] {
                    self.has_other_pred(ds[0], id)
                } else {
                    self.has_two_other_preds(ds[1], id)
                }))),
    {
        reveal_with_fuel(adds_in_order, 3);
        let e0 = drop_source(self.edges(), id);
        assert forall|x: BasicBlockId, d: BasicBlockId| e0.contains((x, d)) <==> (x != id && self.is_pred(d, x)) by {
            if self.is_pred(d, x) {
                assert(self.is_succ(x, d));
            }
            if self.is_succ(x, d) {
                assert(self.is_pred(d, x));
            }
        }
        assert(!two_out_of(e0, id));
        if ds.len() >= 1 {
            let d0 = ds[0];
            let e1 = e0.insert((id, d0));
            assert(!two_out_of(e1, id)) by {
                if two_out_of(e1, id) {
                    let (x, y) = choose|x: BasicBlockId, y: BasicBlockId|
                        #![trigger e1.contains((id, x)), e1.contains((id, y))]
                        x != y && e1.contains((id, x)) && e1.contains((id, y));
                    assert(!e0.contains((id, x)));
                    assert(!e0.contains((id, y)));
                }
            }
            assert(two_into(e0, d0) == self.has_two_other_preds(d0, id)) by {
                if two_into(e0, d0) {
                    let (x, y) = choose|x: BasicBlockId, y: BasicBlockId|
                        #![trigger e0.contains((x, d0)), e0.contains((y, d0))]
                        x != y && e0.contains((x, d0)) && e0.contains((y, d0));
                    assert(self.is_pred(d0, x) && self.is_pred(d0, y));
                }
                if self.has_two_other_preds(d0, id) {
                    let (x, y) = choose|x: BasicBlockId, y: BasicBlockId|
                        x != y && x != id && y != id && #[trigger] self.is_pred(d0, x) && #[trigger] self.is_pred(d0, y);
                    assert(e0.contains((x, d0)) && e0.contains((y, d0)));
                }
            }
            if ds.len() == 2 {
                let d1 = ds[1];
                assert(ds.drop_first()[0] == d1);
                assert(ds.drop_first().drop_first().len() == 0);
                if d1 == d0 {
                    assert(two_into(e1, d1) == self.has_other_pred(d0, id)) by {
                        if two_into(e1, d1) {
                            let (x, y) = choose|x: BasicBlockId, y: BasicBlockId|
                                #![trigger e1.contains((x, d1)), e1.contains((y, d1))]
                                x != y && e1.contains((x, d1)) && e1.contains((y, d1));
                            if x != id {
                                assert(e0.contains((x, d0)));
                                assert(self.is_pred(d0, x));
                            } else {
                                assert(e0.contains((y, d0)));
                                assert(self.is_pred(d0, y));
                            }
                        }
                        if self.has_other_pred(d0, id) {
                            let x = choose|x: BasicBlockId| x != id && #[trigger] self.is_pred(d0, x);
                            assert(e1.contains((x, d1)) && e1.contains((id, d1)));
                        }
                    }
                } else {
                    assert(two_into(e1, d1) == self.has_two_other_preds(d1, id)) by {
                        if two_into(e1, d1) {
                            let (x, y) = choose|x: BasicBlockId, y: BasicBlockId|
                                #![trigger e1.contains((x, d1)), e1.contains((y, d1))]
                                x != y && e1.contains((x, d1)) && e1.contains((y, d1));
                            assert(e0.contains((x, d1)) && e0.contains((y, d1)));
                            assert(self.is_pred(d1, x) && self.is_pred(d1, y));
                        }
                        if self.has_two_other_preds(d1, id) {
                            let (x, y) = choose|x: BasicBlockId, y: BasicBlockId|
                                x != y && x != id && y != id && #[trigger] self.is_pred(d1, x) && #[trigger] self.is_pred(d1, y);
                            assert(e0.contains((x, d1)) && e0.contains((y, d1)));
                            assert(e1.contains((x, d1)) && e1.contains((y, d1)));
                        }
                    }
                }
            } else {
                assert(ds.drop_first().len() == 0);
            }
        }
    }

    /// Brings the edges out of `id` in line with its current terminator in
    /// `func`, after the terminator has changed. Edges into `id` are kept. The
    /// new edges are added in the order of the terminator's destinations; if one
    /// of them would be refused, nothing changes.
    pub fn recompute_block(&mut self, func: &Function, id: BasicBlockId) -> (r: Result<(), CfgError>)
        requires
            old(self).wf(),
            func.wf(),
            old(self).has(id) ==> func.dfg.valid(id),
        ensures
            final(self).wf(),
            !old(self).has(id) ==> r == Err::<(), CfgError>(CfgError::UnknownBlock),
            old(self).has(id) ==> (r is Ok <==> adds_in_order(
                drop_source(old(self).edges(), id),
                id,
                func.dfg.block_successors(id),
            )),
            old(self).nodes().subset_of(final(self).nodes()),
            r is Ok ==> recomputed(*old(self), *final(self), func, id),
            r is Err ==> final(self).nodes() == old(self).nodes()
                && final(self).edges() == old(self).edges(),
            old(self).has(id) && r is Err ==> r == Err::<(), CfgError>(CfgError::DegreeExceeded),
    {
        if !self.data.contains_key(&id.0) {
            return Err(CfgError::UnknownBlock);
        }
        assert(self.has(id));
        let block = func.block_at(id);
        let dests = block.successors();
        let ghost ds = dests@;
        proof {
            self.lemma_refusal_after_clearing(id, ds);
        }
        let mut refused = false;
        if dests.len() >= 1 {
            let d0 = dests[0];
            if self.two_other_preds(d0, id) {
                refused = true;
            } else if dests.len() == 2 {
                let d1 = dests[1];
                refused = if d1 == d0 {
                    self.one_other_pred(d0, id)
                } else {
                    self.two_other_preds(d1, id)
                };
            }
        }
        if refused {
            return Err(CfgError::DegreeExceeded);
        }
        self.invalidate_block_successors(id)?;
        let r = self.compute_block(id, block);
        proof {
            lemma_endpoints_out(id, ds);
        }
        r
    }

    /// Builds the graph of the blocks of `func` reachable from its entry block.
    /// The entry block always has a node, with or without edges.
    pub fn with_function(func: &Function) -> (r: Result<ControlFlowGraph, CfgError>)
        requires
            func.wf(),
        ensures
            r is Ok ==> !exceeds_degree(function_edges(func)),
            exists|order: Seq<BasicBlockId>|
                visiting_order(func, order) && (r is Ok <==> builds_in_order(
                    Set::empty(),
                    func,
                    order,
                )),
            match r {
                Ok(cfg) => {
                    &&& cfg.wf()
                    &&& cfg.nodes().contains(func.entry)
                    &&& cfg.nodes() == reachable_set(func)
                    &&& cfg.edges() == function_edges(func)
                },
                Err(e) => e == CfgError::DegreeExceeded,
            },
    {
        let entry = func.entry_block();
        let mut data: HashMap<u32, CfgNode> = HashMap::new();
        data.insert(entry.0, CfgNode::empty());
        let mut cfg = ControlFlowGraph { data };
        proof {
            assert(forall|a: BasicBlockId, b: BasicBlockId| !#[trigger] cfg.is_succ(a, b));
            assert(forall|a: BasicBlockId, b: BasicBlockId| !#[trigger] cfg.is_pred(b, a));
            assert(cfg.nodes() =~= Set::empty().insert(entry));
            assert(cfg.edges() =~= Set::empty());
        }
        let ghost start = cfg;
        match cfg.compute(func) {
            Ok(()) => {},
            Err(e) => {
                return Err(e);
            },
        }
        proof {
            let fe = function_edges(func);
            assert(start.edges().union(fe) =~= fe);
            assert(func.reachable(func.entry)) by {
                assert(func.is_path(seq![func.entry]));
            }
            assert forall|x: BasicBlockId| #[trigger] cfg.nodes().contains(x) <==> func.reachable(x) by {
                if endpoints(fe).contains(x) {
                    let y = choose|y: BasicBlockId|
                        #![trigger fe.contains((x, y))]
                        #![trigger fe.contains((y, x))]
                        fe.contains((x, y)) || fe.contains((y, x));
                    if !fe.contains((x, y)) {
                        func.lemma_step_from_reachable(y, x);
                    }
                }
                if func.reachable(x) && x != func.entry {
                    func.lemma_entered_from_reachable(x);
                    let a = choose|a: BasicBlockId| #[trigger] func.step(a, x) && func.reachable(a);
                    assert(fe.contains((a, x)));
                }
            }
            assert(cfg.nodes() =~= reachable_set(func));
            cfg.lemma_wf_within_degree();
        }
        Ok(cfg)
    }

    /// Records the edges out of every block of `func` reachable from its entry block.
    fn compute(&mut self, func: &Function) -> (r: Result<(), CfgError>)
        requires
            old(self).wf(),
            func.wf(),
        ensures
            final(self).wf(),
            r is Ok ==> final(self).nodes() == old(self).nodes().union(endpoints(function_edges(func)))
                && final(self).edges() == old(self).edges().union(function_edges(func)),
            r is Err ==> r == Err::<(), CfgError>(CfgError::DegreeExceeded),
            exists|order: Seq<BasicBlockId>|
                visiting_order(func, order) && (r is Ok <==> builds_in_order(
                    old(self).edges(),
                    func,
                    order,
                )),
    {
        let blocks = func.reachable_blocks();
        let ghost rs = blocks@;
        let ghost start = *self;
        let ghost fe = function_edges(func);
        proof {
            let e0 = Set::new(|e: Edge| rs.take(0).contains(e.0) && func.step(e.0, e.1));
            assert(e0 =~= Set::empty());
            assert(start.edges().union(e0) =~= start.edges());
            assert(endpoints(e0) =~= Set::empty());
            assert(start.nodes().union(endpoints(e0)) =~= start.nodes());
            assert(rs.skip(0) =~= rs);
            assert(visiting_order(func, rs));
        }
        let mut i: usize = 0;
        while i < blocks.len()
            invariant
                self.wf(),
                func.wf(),
                start == *old(self),
                fe == function_edges(func),
                blocks@ == rs,
                i <= rs.len(),
                forall|b: BasicBlockId| #[trigger] rs.contains(b) <==> func.reachable(b),
                forall|j: int| 0 <= j < rs.len() ==> func.dfg.valid(#[trigger] rs[j]),
                self.edges() == start.edges().union(
                    Set::new(|e: Edge| rs.take(i as int).contains(e.0) && func.step(e.0, e.1)),
                ),
                self.nodes() == start.nodes().union(endpoints(
                    Set::new(|e: Edge| rs.take(i as int).contains(e.0) && func.step(e.0, e.1)),
                )),
                visiting_order(func, rs),
                builds_in_order(start.edges(), func, rs) == builds_in_order(
                    self.edges(),
                    func,
                    rs.skip(i as int),
                ),
            decreases rs.len() - i,
        {
            let id = blocks[i];
            let ghost ei = Set::new(|e: Edge| rs.take(i as int).contains(e.0) && func.step(e.0, e.1));
            let ghost ei1 = Set::new(|e: Edge| rs.take(i as int + 1).contains(e.0) && func.step(e.0, e.1));
            let ghost out = out_edges(id, func.dfg.block_successors(id));
            proof {
                assert(rs.take(i as int + 1) =~= rs.take(i as int).push(id));
                assert(ei1 =~= ei.union(out));
                lemma_endpoints_union(ei, out);
                assert(start.edges().union(ei).union(out) =~= start.edges().union(ei1));
                assert(start.nodes().union(endpoints(ei)).union(endpoints(out)) =~= start.nodes().union(endpoints(ei1)));
                assert(rs.skip(i as int)[0] == id);
                assert(rs.skip(i as int).drop_first() =~= rs.skip(i as int + 1));
            }
            let block = func.block_at(id);
            match self.compute_block(id, block) {
                Ok(()) => {},
                Err(e) => {
                    return Err(e);
                },
            }
            i = i + 1;
        }
        proof {
            let en = Set::new(|e: Edge| rs.take(rs.len() as int).contains(e.0) && func.step(e.0, e.1));
            assert(rs.take(rs.len() as int) =~= rs);
            assert(en =~= fe);
            assert(rs.skip(rs.len() as int) =~= Seq::<BasicBlockId>::empty());
        }
        Ok(())
    }

    /// The recorded predecessors of `id`, each once, in no particular order.
    pub fn predecessors(&self, id: BasicBlockId) -> (r: Result<Vec<BasicBlockId>, CfgError>)
        requires
            self.wf(),
        ensures
            match r {
                Ok(v) => self.nodes().contains(id) && v@.no_duplicates() && v@.to_set() == self.preds(id),
                Err(e) => !self.nodes().contains(id) && e == CfgError::UnknownBlock,
            },
    {
        match self.data.get(&id.0) {
            Some(node) => {
                let v = copy_ids(&node.predecessors);
                proof {
                    assert(self.data@.contains_key(id.0));
                    assert(v@.to_set() =~= self.preds(id));
                }
                Ok(v)
            },
            None => Err(CfgError::UnknownBlock),
        }
    }

    /// The recorded successors of `id`, each once, in no particular order.
    pub fn successors(&self, id: BasicBlockId) -> (r: Result<Vec<BasicBlockId>, CfgError>)
        requires
            self.wf(),
        ensures
            match r {
                Ok(v) => self.nodes().contains(id) && v@.no_duplicates() && v@.to_set() == self.succs(id),
                Err(e) => !self.nodes().contains(id) && e == CfgError::UnknownBlock,
            },
    {
        match self.data.get(&id.0) {
            Some(node) => {
                let v = copy_ids(&node.successors);
                proof {
                    assert(self.data@.contains_key(id.0));
                    assert(v@.to_set() =~= self.succs(id));
                }
                Ok(v)
            },
            None => Err(CfgError::UnknownBlock),
        }
    }

    /// In a well-formed graph, `b` is a successor of `a` exactly when `a` is a
    /// predecessor of `b`.
    pub proof fn lemma_symmetry(&self, a: BasicBlockId, b: BasicBlockId)
        requires
            self.wf(),
        ensures
            self.succs(a).contains(b) <==> self.preds(b).contains(a),
    {
    }

    /// In a well-formed graph, every block has at most two successors and at
    /// most two predecessors.
    pub proof fn lemma_degree_bound(&self, a: BasicBlockId)
        requires
            self.wf(),
        ensures
            self.succs(a).finite(),
            self.succs(a).len() <= 2,
            self.preds(a).finite(),
            self.preds(a).len() <= 2,
    {
        self.lemma_wf_degrees(a);
        let so = self.out_seq(a);
        let si = self.in_seq(a);
        assert(self.succs(a) =~= so.to_set());
        assert(self.preds(a) =~= si.to_set());
        vstd::seq_lib::seq_to_set_is_finite(so);
        vstd::seq_lib::seq_to_set_is_finite(si);
        so.unique_seq_to_set();
        si.unique_seq_to_set();
    }

    /// Recomputing a block a second time, with its terminator unchanged, leaves
    /// the graph as the first recomputation left it.
    pub proof fn lemma_recompute_idempotent(
        first: ControlFlowGraph,
        second: ControlFlowGraph,
        third: ControlFlowGraph,
        func: &Function,
        id: BasicBlockId,
    )
        requires
            second.wf(),
            third.wf(),
            recomputed(first, second, func, id),
            recomputed(second, third, func, id),
        ensures
            third.nodes() == second.nodes(),
            third.edges() == second.edges(),
            third.succs(id) == second.succs(id),
            third.preds(id) == second.preds(id),
    {
        let t = touched(id, func.dfg.block_successors(id));
        assert(second.nodes().union(t) =~= second.nodes());
        assert(rewired(rewired(first.edges(), func, id), func, id) =~= rewired(first.edges(), func, id));
        assert forall|b: BasicBlockId| third.succs(id).contains(b) <==> second.succs(id).contains(b) by {
            assert(third.edges().contains((id, b)) == second.edges().contains((id, b)));
        }
        assert forall|a: BasicBlockId| third.preds(id).contains(a) <==> second.preds(id).contains(a) by {
            assert(third.edges().contains((a, id)) == second.edges().contains((a, id)));
        }
        assert(third.succs(id) =~= second.succs(id));
        assert(third.preds(id) =~= second.preds(id));
    }

    /// Recomputing block `a` keeps each predecessor `c` of `a`, unless `c` is `a`
    /// itself and its new terminator no longer leads back to it.
    pub proof fn lemma_recompute_keeps_incoming(
        before: ControlFlowGraph,
        after: ControlFlowGraph,
        func: &Function,
        a: BasicBlockId,
        c: BasicBlockId,
    )
        requires
            before.wf(),
            after.wf(),
            recomputed(before, after, func, a),
            before.preds(a).contains(c),
            c != a || func.step(a, a),
        ensures
            after.preds(a).contains(c),
    {
        assert(before.edges().contains((c, a)));
        assert(after.edges().contains((c, a)));
    }

    /// The recorded successors of `a`, as a sequence (empty without a node).
    spec fn out_seq(&self, a: BasicBlockId) -> Seq<BasicBlockId> {
        if self.has(a) {
            self.data@[a.0].successors@
        } else {
            Seq::empty()
        }
    }

    /// The recorded predecessors of `b`, as a sequence (empty without a node).
    spec fn in_seq(&self, b: BasicBlockId) -> Seq<BasicBlockId> {
        if self.has(b) {
            self.data@[b.0].predecessors@
        } else {
            Seq::empty()
        }
    }
}

} // verus!
