use vstd::prelude::*;

verus! {

/// Index of a basic block in its function's block arena.
#[derive(Clone, Copy, Debug, PartialEq, Eq, Hash, Structural)]
pub struct BasicBlockId(pub u32);

/// Index of a value (a block parameter) of a function.
#[derive(Clone, Copy, Debug, PartialEq, Eq, Hash, Structural)]
pub struct ValueId(pub u32);

/// Identifier of a function within a program.
#[derive(Clone, Copy, Debug, PartialEq, Eq, Hash, Structural)]
pub struct FunctionId(pub u32);

/// The single control transfer that ends a basic block.
pub enum TerminatorInstruction {
    /// Unconditional jump, passing `arguments` to the destination's parameters.
    Jmp { destination: BasicBlockId, arguments: Vec<ValueId> },
    /// Conditional jump: to `then_destination` when `condition` holds, else to
    /// `else_destination`.
    JmpIf {
        condition: ValueId,
        then_destination: BasicBlockId,
        else_destination: BasicBlockId,
    },
    /// Leaves the function.
    Return { return_values: Vec<ValueId> },
}

impl TerminatorInstruction {
    /// The destinations of the terminator, in the order in which they are written.
    pub open spec fn destinations(&self) -> Seq<BasicBlockId> {
        match self {
            TerminatorInstruction::Jmp { destination, .. } => seq![*destination],
            TerminatorInstruction::JmpIf { then_destination, else_destination, .. } => seq![
                *then_destination,
                *else_destination,
            ],
            TerminatorInstruction::Return { .. } => seq![],
        }
    }
}

/// A basic block: its parameters and, once set, its terminator.
pub struct BasicBlock {
    pub parameters: Vec<ValueId>,
    pub terminator: Option<TerminatorInstruction>,
}

impl BasicBlock {
    /// The blocks that control may pass to from the end of this block.
    pub open spec fn successor_seq(&self) -> Seq<BasicBlockId> {
        match self.terminator {
            Some(t) => t.destinations(),
            None => seq![],
        }
    }

    /// The destinations of the block's terminator, in order; empty while the
    /// block has no terminator.
    pub fn successors(&self) -> (r: Vec<BasicBlockId>)
        ensures
            r@ == self.successor_seq(),
            r@.len() <= 2,
    {
        match &self.terminator {
            Some(TerminatorInstruction::Jmp { destination, .. }) => vec![*destination],
            Some(TerminatorInstruction::JmpIf { then_destination, else_destination, .. }) => {
                vec![*then_destination, *else_destination]
            },
            Some(TerminatorInstruction::Return { .. }) => Vec::new(),
            None => Vec::new(),
        }
    }
}

/// The arena of basic blocks of one function.
pub struct DataFlowGraph {
    pub blocks: Vec<BasicBlock>,
    pub next_value: u32,
}

impl DataFlowGraph {
    pub open spec fn valid(&self, b: BasicBlockId) -> bool {
        (b.0 as int) < self.blocks@.len()
    }

    /// Every terminator names blocks of this arena.
    pub open spec fn wf(&self) -> bool {
        forall|i: int, j: int|
            #![trigger self.blocks@[i].successor_seq()[j]]
            0 <= i < self.blocks@.len() && 0 <= j < self.blocks@[i].successor_seq().len()
                ==> self.valid(self.blocks@[i].successor_seq()[j])
    }

    pub open spec fn block_successors(&self, b: BasicBlockId) -> Seq<BasicBlockId> {
        self.blocks@[b.0 as int].successor_seq()
    }

    pub fn new() -> (r: DataFlowGraph)
        ensures
            r.blocks@.len() == 0,
            r.next_value == 0,
            r.wf(),
    {
        DataFlowGraph { blocks: Vec::new(), next_value: 0 }
    }

    /// Appends a block without parameters or terminator and returns its id.
    pub fn make_block(&mut self) -> (r: BasicBlockId)
        requires
            old(self).blocks@.len() < u32::MAX,
            old(self).wf(),
        ensures
            r.0 as int == old(self).blocks@.len(),
            final(self).blocks@.len() == old(self).blocks@.len() + 1,
            final(self).next_value == old(self).next_value,
            final(self).wf(),
            final(self).block_successors(r) == Seq::<BasicBlockId>::empty(),
            forall|b: BasicBlockId|
                old(self).valid(b) ==> #[trigger] final(self).block_successors(b)
                    == old(self).block_successors(b),
    {
        let r = BasicBlockId(self.blocks.len() as u32);
        self.blocks.push(BasicBlock { parameters: Vec::new(), terminator: None });
        assert forall|i: int, j: int|
            #![trigger self.blocks@[i].successor_seq()[j]]
            0 <= i < self.blocks@.len() && 0 <= j < self.blocks@[i].successor_seq().len()
                implies self.valid(self.blocks@[i].successor_seq()[j]) by {
            if i < old(self).blocks@.len() {
                assert(old(self).blocks@[i] == self.blocks@[i]);
            }
        }
        r
    }

    /// Adds a fresh value as the last parameter of `block` and returns it.
    pub fn add_block_parameter(&mut self, block: BasicBlockId) -> (r: ValueId)
        requires
            old(self).valid(block),
            old(self).next_value < u32::MAX,
            old(self).wf(),
        ensures
            r.0 == old(self).next_value,
            final(self).next_value == old(self).next_value + 1,
            final(self).blocks@.len() == old(self).blocks@.len(),
            final(self).blocks@[block.0 as int].parameters@ == old(self).blocks@[
                block.0 as int].parameters@.push(r),
            final(self).wf(),
            forall|b: BasicBlockId|
                old(self).valid(b) ==> #[trigger] final(self).block_successors(b)
                    == old(self).block_successors(b),
    {
        let r = ValueId(self.next_value);
        self.next_value = self.next_value + 1;
        let i = block.0 as usize;
        let mut blk = self.blocks.remove(i);
        blk.parameters.push(r);
        self.blocks.insert(i, blk);
        assert(self.blocks@ =~= old(self).blocks@.update(i as int, blk));
        assert forall|i: int, j: int|
            #![trigger self.blocks@[i].successor_seq()[j]]
            0 <= i < self.blocks@.len() && 0 <= j < self.blocks@[i].successor_seq().len()
                implies self.valid(self.blocks@[i].successor_seq()[j]) by {
            assert(old(self).blocks@[i].successor_seq() == self.blocks@[i].successor_seq());
        }
        r
    }

    /// Replaces the terminator of `block`.
    pub fn set_terminator(&mut self, block: BasicBlockId, terminator: TerminatorInstruction)
        requires
            old(self).valid(block),
            old(self).wf(),
            forall|j: int|
                0 <= j < terminator.destinations().len() ==> old(self).valid(
                    #[trigger] terminator.destinations()[j],
                ),
        ensures
            final(self).blocks@.len() == old(self).blocks@.len(),
            final(self).next_value == old(self).next_value,
            final(self).wf(),
            final(self).block_successors(block) == terminator.destinations(),
            forall|b: BasicBlockId|
                old(self).valid(b) && b != block ==> #[trigger] final(self).block_successors(b)
                    == old(self).block_successors(b),
    {
        let ghost dests = terminator.destinations();
        let i = block.0 as usize;
        let mut blk = self.blocks.remove(i);
        blk.terminator = Some(terminator);
        self.blocks.insert(i, blk);
        assert(self.blocks@ =~= old(self).blocks@.update(i as int, blk));
        assert(self.blocks@[i as int].successor_seq() == dests);
        assert forall|k: int, j: int|
            #![trigger self.blocks@[k].successor_seq()[j]]
            0 <= k < self.blocks@.len() && 0 <= j < self.blocks@[k].successor_seq().len()
                implies self.valid(self.blocks@[k].successor_seq()[j]) by {
            if k == i as int {
                assert(self.blocks@[k].successor_seq()[j] == dests[j]);
            } else {
                assert(old(self).blocks@[k].successor_seq() == self.blocks@[k].successor_seq());
            }
        }
    }
}

/// A function: its name, its id, its entry block and its block arena.
pub struct Function {
    pub name: String,
    pub id: FunctionId,
    pub entry: BasicBlockId,
    pub dfg: DataFlowGraph,
}

impl Function {
    pub open spec fn wf(&self) -> bool {
        self.dfg.valid(self.entry) && self.dfg.wf()
    }

    /// Control may pass from the end of `a` to the start of `b`.
    pub open spec fn step(&self, a: BasicBlockId, b: BasicBlockId) -> bool {
        self.dfg.valid(a) && self.dfg.block_successors(a).contains(b)
    }

    /// `p` is a walk through the blocks that starts at the entry block.
    pub open spec fn is_path(&self, p: Seq<BasicBlockId>) -> bool {
        &&& p.len() > 0
        &&& p[0] == self.entry
        &&& forall|i: int| 0 <= i < p.len() - 1 ==> #[trigger] self.step(p[i], p[i + 1])
    }

    /// `b` is reached from the entry block.
    pub open spec fn reachable(&self, b: BasicBlockId) -> bool {
        exists|p: Seq<BasicBlockId>| #[trigger] self.is_path(p) && p.last() == b
    }

    /// A function with a single, unterminated entry block.
    pub fn new(name: String, id: FunctionId) -> (r: Function)
        ensures
            r.wf(),
            r.name@ == name@,
            r.id == id,
            r.entry.0 == 0,
            r.dfg.blocks@.len() == 1,
            r.dfg.next_value == 0,
            r.dfg.block_successors(r.entry) == Seq::<BasicBlockId>::empty(),
    {
        let mut dfg = DataFlowGraph::new();
        let entry = dfg.make_block();
        Function { name, id, entry, dfg }
    }

    pub fn entry_block(&self) -> (r: BasicBlockId)
        ensures
            r == self.entry,
    {
        self.entry
    }

    /// Every block that `s` holds passes control only to blocks that `s` holds.
    pub open spec fn closed_under_step(&self, s: Seq<BasicBlockId>) -> bool {
        forall|a: BasicBlockId, c: BasicBlockId|
            s.contains(a) && #[trigger] self.step(a, c) ==> s.contains(c)
    }

    proof fn lemma_closed_holds_path(&self, s: Seq<BasicBlockId>, p: Seq<BasicBlockId>)
        requires
            s.contains(self.entry),
            self.closed_under_step(s),
            self.is_path(p),
        ensures
            s.contains(p.last()),
        decreases p.len(),
    {
        if p.len() > 1 {
            let q = p.drop_last();
            assert forall|i: int| 0 <= i < q.len() - 1 implies #[trigger] self.step(q[i], q[i + 1]) by {
                assert(self.step(p[i], p[i + 1]));
            }
            self.lemma_closed_holds_path(s, q);
            let i = p.len() - 2;
            assert(self.step(p[i], p[i + 1]));
            assert(q.last() == p[i] && p.last() == p[i + 1]);
        }
    }

    pub proof fn lemma_step_from_reachable(&self, a: BasicBlockId, b: BasicBlockId)
        requires
            self.reachable(a),
            self.step(a, b),
        ensures
            self.reachable(b),
    {
        let p = choose|p: Seq<BasicBlockId>| #[trigger] self.is_path(p) && p.last() == a;
        let q = p.push(b);
        assert forall|i: int| 0 <= i < q.len() - 1 implies #[trigger] self.step(q[i], q[i + 1]) by {
            if i < p.len() - 1 {
                assert(self.step(p[i], p[i + 1]));
            }
        }
        assert(self.is_path(q) && q.last() == b);
    }

    /// A reachable block other than the entry block is entered from a reachable block.
    pub proof fn lemma_entered_from_reachable(&self, b: BasicBlockId)
        requires
            self.reachable(b),
            b != self.entry,
        ensures
            exists|a: BasicBlockId| #[trigger] self.step(a, b) && self.reachable(a),
    {
        let p = choose|p: Seq<BasicBlockId>| #[trigger] self.is_path(p) && p.last() == b;
        let q = p.drop_last();
        let i = p.len() - 2;
        assert(self.step(p[i], p[i + 1]));
        assert forall|j: int| 0 <= j < q.len() - 1 implies #[trigger] self.step(q[j], q[j + 1]) by {
            assert(self.step(p[j], p[j + 1]));
        }
        assert(self.is_path(q) && q.last() == p[i]);
    }

    /// The blocks reachable from the entry block, each once, the entry block first.
    pub fn reachable_blocks(&self) -> (r: Vec<BasicBlockId>)
        requires
            self.wf(),
        ensures
            r@.no_duplicates(),
            r@.len() > 0,
            r@[0] == self.entry,
            forall|b: BasicBlockId| #[trigger] r@.contains(b) <==> self.reachable(b),
            forall|j: int| 0 <= j < r@.len() ==> self.dfg.valid(#[trigger] r@[j]),
    {
        let n = self.dfg.blocks.len();
        let mut visited: Vec<bool> = Vec::new();
        let mut k: usize = 0;
        while k < n
            invariant
                k <= n,
                visited@.len() == k,
                forall|x: int| 0 <= x < k ==> !#[trigger] visited@[x],
            decreases n - k,
        {
            visited.push(false);
            k = k + 1;
        }
        let mut order: Vec<BasicBlockId> = Vec::new();
        order.push(self.entry);
        proof {
            lemma_count_false_update(visited@, self.entry.0 as int);
            assert(self.is_path(seq![self.entry]));
        }
        visited.set(self.entry.0 as usize, true);
        let mut i: usize = 0;
        while i < order.len()
            invariant
                self.wf(),
                n == self.dfg.blocks@.len(),
                visited@.len() == n,
                i <= order@.len(),
                order@.len() > 0,
                order@[0] == self.entry,
                order@.no_duplicates(),
                forall|j: int|
                    0 <= j < order@.len() ==> self.dfg.valid(#[trigger] order@[j]) && self.reachable(
                        order@[j],
                    ),
                forall|b: BasicBlockId|
                    #![trigger visited@[b.0 as int]]
                    #![trigger order@.contains(b)]
                    self.dfg.valid(b) ==> (visited@[b.0 as int] <==> order@.contains(b)),
                forall|j: int, c: BasicBlockId|
                    0 <= j < i && #[trigger] self.step(order@[j], c) ==> order@.contains(c),
            decreases count_false(visited@) + order@.len() - i,
        {
            let cur = order[i];
            let succs = self.block_at(cur).successors();
            let ghost measure = count_false(visited@) + order@.len();
            let mut s: usize = 0;
            while s < succs.len()
                invariant
                    self.wf(),
                    n == self.dfg.blocks@.len(),
                    visited@.len() == n,
                    i < order@.len(),
                    order@[i as int] == cur,
                    succs@ == self.dfg.block_successors(cur),
                    self.dfg.valid(cur),
                    order@.len() > 0,
                    order@[0] == self.entry,
                    order@.no_duplicates(),
                    forall|j: int|
                        0 <= j < order@.len() ==> self.dfg.valid(#[trigger] order@[j])
                            && self.reachable(order@[j]),
                    forall|b: BasicBlockId|
                        #![trigger visited@[b.0 as int]]
                        #![trigger order@.contains(b)]
                        self.dfg.valid(b) ==> (visited@[b.0 as int] <==> order@.contains(b)),
                    forall|j: int, c: BasicBlockId|
                        0 <= j < i && #[trigger] self.step(order@[j], c) ==> order@.contains(c),
                    forall|t: int| 0 <= t < s ==> order@.contains(#[trigger] succs@[t]),
                    s <= succs@.len(),
                    count_false(visited@) + order@.len() == measure,
                decreases succs@.len() - s,
            {
                let d = succs[s];
                proof {
                    assert(self.dfg.blocks@[cur.0 as int].successor_seq()[s as int] == d);
                    assert(self.step(cur, d));
                    self.lemma_step_from_reachable(cur, d);
                }
                if !visited[d.0 as usize] {
                    let ghost old_order = order@;
                    let ghost old_visited = visited@;
                    proof {
                        lemma_count_false_update(visited@, d.0 as int);
                        assert(!old_order.contains(d));
                    }
                    visited.set(d.0 as usize, true);
                    order.push(d);
                    assert forall|y: BasicBlockId| old_order.contains(y) implies order@.contains(
                        y,
                    ) by {
                        let j = choose|j: int| 0 <= j < old_order.len() && old_order[j] == y;
                        assert(order@[j] == y);
                    }
                    assert(order@[order@.len() - 1] == d);
                    assert forall|b: BasicBlockId| self.dfg.valid(b) implies (visited@[b.0 as int]
                        <==> order@.contains(b)) by {
                        if order@.contains(b) && b != d {
                            let j = choose|j: int| 0 <= j < order@.len() && order@[j] == b;
                            assert(old_order[j] == b);
                        }
                        if b != d {
                            assert(visited@[b.0 as int] == old_visited[b.0 as int]);
                        }
                    }
                }
                s = s + 1;
            }
            assert forall|c: BasicBlockId| #[trigger] self.step(cur, c) implies order@.contains(
                c,
            ) by {
                let t = choose|t: int| 0 <= t < succs@.len() && succs@[t] == c;
            }
            i = i + 1;
        }
        proof {
            assert(order@.contains(self.entry)) by {
                assert(order@[0] == self.entry);
            }
            assert forall|a: BasicBlockId, c: BasicBlockId|
                order@.contains(a) && #[trigger] self.step(a, c) implies order@.contains(c) by {
                let j = choose|j: int| 0 <= j < order@.len() && order@[j] == a;
                assert(self.step(order@[j], c));
            }
            assert forall|b: BasicBlockId| #[trigger] order@.contains(b) <==> self.reachable(b) by {
                if self.reachable(b) {
                    let p = choose|p: Seq<BasicBlockId>| #[trigger] self.is_path(p) && p.last() == b;
                    self.lemma_closed_holds_path(order@, p);
                }
            }
        }
        order
    }

    pub fn block_at(&self, b: BasicBlockId) -> (r: &BasicBlock)
        requires
            self.dfg.valid(b),
        ensures
            r.successor_seq() == self.dfg.block_successors(b),
    {
        &self.dfg.blocks[b.0 as usize]
    }
}

/// How many entries of `s` are `false`.
spec fn count_false(s: Seq<bool>) -> nat
    decreases s.len(),
{
    if s.len() == 0 {
        0
    } else {
        count_false(s.drop_last()) + if s.last() {
            0nat
        } else {
            1nat
        }
    }
}

proof fn lemma_count_false_update(s: Seq<bool>, j: int)
    requires
        0 <= j < s.len(),
        !s[j],
    ensures
        count_false(s.update(j, true)) + 1 == count_false(s),
    decreases s.len(),
{
    let t = s.update(j, true);
    if j == s.len() - 1 {
        assert(t.drop_last() =~= s.drop_last());
    } else {
        lemma_count_false_update(s.drop_last(), j);
        assert(t.drop_last() =~= s.drop_last().update(j, true));
    }
}

} // verus!
