use noir_cfg::cfg::{CfgError, ControlFlowGraph};
use noir_cfg::ir::{BasicBlockId, Function, FunctionId, TerminatorInstruction};

fn ids(v: Vec<BasicBlockId>) -> Vec<u32> {
    let mut r: Vec<u32> = v.into_iter().map(|b| b.0).collect();
    r.sort();
    r
}

fn ret() -> TerminatorInstruction {
    TerminatorInstruction::Return { return_values: vec![] }
}

fn jmp(destination: BasicBlockId) -> TerminatorInstruction {
    TerminatorInstruction::Jmp { destination, arguments: vec![] }
}

/// block0 -> {block2, block1}; block1 -> {block1, block2}; block2 returns.
fn branch_and_loop() -> (Function, BasicBlockId, BasicBlockId, BasicBlockId) {
    let mut func = Function::new("func".to_string(), FunctionId(0));
    let block0_id = func.entry_block();
    let cond = func.dfg.add_block_parameter(block0_id);
    let block1_id = func.dfg.make_block();
    let block2_id = func.dfg.make_block();
    func.dfg.set_terminator(
        block0_id,
        TerminatorInstruction::JmpIf {
            condition: cond,
            then_destination: block2_id,
            else_destination: block1_id,
        },
    );
    func.dfg.set_terminator(
        block1_id,
        TerminatorInstruction::JmpIf {
            condition: cond,
            then_destination: block1_id,
            else_destination: block2_id,
        },
    );
    func.dfg.set_terminator(block2_id, ret());
    (func, block0_id, block1_id, block2_id)
}

#[test]
fn empty() {
    let mut func = Function::new("func".to_string(), FunctionId(0));
    let block_id = func.entry_block();
    func.dfg.set_terminator(block_id, ret());

    ControlFlowGraph::with_function(&func).unwrap();
}

#[test]
fn jumps() {
    let (mut func, block0_id, block1_id, block2_id) = branch_and_loop();
    let cond = func.dfg.blocks[block0_id.0 as usize].parameters[0];

    let mut cfg = ControlFlowGraph::with_function(&func).unwrap();

    {
        let block0_predecessors = cfg.predecessors(block0_id).unwrap();
        let block1_predecessors = cfg.predecessors(block1_id).unwrap();
        let block2_predecessors = cfg.predecessors(block2_id).unwrap();

        let block0_successors = cfg.successors(block0_id).unwrap();
        let block1_successors = cfg.successors(block1_id).unwrap();
        let block2_successors = cfg.successors(block2_id).unwrap();

        assert_eq!(block0_predecessors.len(), 0);
        assert_eq!(block1_predecessors.len(), 2);
        assert_eq!(block2_predecessors.len(), 2);

        assert!(block1_predecessors.contains(&block0_id));
        assert!(block1_predecessors.contains(&block1_id));
        assert!(block2_predecessors.contains(&block0_id));
        assert!(block2_predecessors.contains(&block1_id));

        assert_eq!(block0_successors.len(), 2);
        assert_eq!(block1_successors.len(), 2);
        assert_eq!(block2_successors.len(), 0);

        assert!(block0_successors.contains(&block1_id));
        assert!(block0_successors.contains(&block2_id));
        assert!(block1_successors.contains(&block1_id));
        assert!(block1_successors.contains(&block2_id));
    }

    let ret_block_id = func.dfg.make_block();
    func.dfg.set_terminator(ret_block_id, ret());
    func.dfg.set_terminator(block2_id, jmp(ret_block_id));
    func.dfg.set_terminator(
        block0_id,
        TerminatorInstruction::JmpIf {
            condition: cond,
            then_destination: block1_id,
            else_destination: ret_block_id,
        },
    );

    cfg.recompute_block(&func, block0_id).unwrap();
    cfg.recompute_block(&func, block2_id).unwrap();
    cfg.recompute_block(&func, ret_block_id).unwrap();

    {
        let block0_predecessors = cfg.predecessors(block0_id).unwrap();
        let block1_predecessors = cfg.predecessors(block1_id).unwrap();
        let block2_predecessors = cfg.predecessors(block2_id).unwrap();

        let block0_successors = cfg.successors(block0_id).unwrap();
        let block1_successors = cfg.successors(block1_id).unwrap();
        let block2_successors = cfg.successors(block2_id).unwrap();

        assert_eq!(block0_predecessors.len(), 0);
        assert_eq!(block1_predecessors.len(), 2);
        assert_eq!(block2_predecessors.len(), 1);

        assert!(block1_predecessors.contains(&block0_id));
        assert!(block1_predecessors.contains(&block1_id));
        assert!(!block2_predecessors.contains(&block0_id));
        assert!(block2_predecessors.contains(&block1_id));

        assert_eq!(block0_successors.len(), 2);
        assert_eq!(block1_successors.len(), 2);
        assert_eq!(block2_successors.len(), 1);

        assert!(block0_successors.contains(&block1_id));
        assert!(block0_successors.contains(&ret_block_id));
        assert!(block1_successors.contains(&block1_id));
        assert!(block1_successors.contains(&block2_id));
        assert!(block2_successors.contains(&ret_block_id));
    }
}

#[test]
fn straight_line_has_no_edges() {
    let mut func = Function::new("func".to_string(), FunctionId(0));
    let entry = func.entry_block();
    func.dfg.set_terminator(entry, ret());
    let cfg = ControlFlowGraph::with_function(&func).unwrap();
    assert_eq!(cfg.successors(entry), Ok(vec![]));
    assert_eq!(cfg.predecessors(entry), Ok(vec![]));
}

#[test]
fn entry_without_terminator_is_queryable() {
    let func = Function::new("func".to_string(), FunctionId(3));
    let cfg = ControlFlowGraph::with_function(&func).unwrap();
    assert_eq!(cfg.successors(func.entry_block()), Ok(vec![]));
    assert_eq!(cfg.predecessors(func.entry_block()), Ok(vec![]));
}

#[test]
fn branch_and_self_loop_sets() {
    let (func, b0, b1, b2) = branch_and_loop();
    let cfg = ControlFlowGraph::with_function(&func).unwrap();
    assert_eq!(ids(cfg.predecessors(b0).unwrap()), Vec::<u32>::new());
    assert_eq!(ids(cfg.predecessors(b1).unwrap()), vec![0, 1]);
    assert_eq!(ids(cfg.predecessors(b2).unwrap()), vec![0, 1]);
    assert_eq!(ids(cfg.successors(b0).unwrap()), vec![1, 2]);
    assert_eq!(ids(cfg.successors(b1).unwrap()), vec![1, 2]);
    assert_eq!(ids(cfg.successors(b2).unwrap()), Vec::<u32>::new());
}

#[test]
fn successor_and_predecessor_sets_agree() {
    let (func, b0, b1, b2) = branch_and_loop();
    let cfg = ControlFlowGraph::with_function(&func).unwrap();
    for a in [b0, b1, b2] {
        let succs = cfg.successors(a).unwrap();
        assert!(succs.len() <= 2);
        assert!(cfg.predecessors(a).unwrap().len() <= 2);
        for b in [b0, b1, b2] {
            let back = cfg.predecessors(b).unwrap().contains(&a);
            assert_eq!(succs.contains(&b), back);
        }
    }
}

#[test]
fn local_rewrite() {
    let (mut func, b0, b1, b2) = branch_and_loop();
    let cond = func.dfg.blocks[0].parameters[0];
    let mut cfg = ControlFlowGraph::with_function(&func).unwrap();
    let ret_block = func.dfg.make_block();
    func.dfg.set_terminator(ret_block, ret());
    func.dfg.set_terminator(b2, jmp(ret_block));
    func.dfg.set_terminator(
        b0,
        TerminatorInstruction::JmpIf { condition: cond, then_destination: b2, else_destination: ret_block },
    );
    cfg.recompute_block(&func, b0).unwrap();
    cfg.recompute_block(&func, b2).unwrap();
    cfg.recompute_block(&func, ret_block).unwrap();
    assert_eq!(ids(cfg.predecessors(b2).unwrap()), vec![0, 1]);
    assert_eq!(ids(cfg.successors(b2).unwrap()), vec![3]);
    assert_eq!(ids(cfg.predecessors(ret_block).unwrap()), vec![0, 2]);
    assert_eq!(ids(cfg.successors(b0).unwrap()), vec![2, 3]);
    assert_eq!(ids(cfg.predecessors(b1).unwrap()), vec![1]);
}

#[test]
fn rewrite_drops_old_edge_into_block() {
    let (mut func, b0, b1, b2) = branch_and_loop();
    let cond = func.dfg.blocks[0].parameters[0];
    let mut cfg = ControlFlowGraph::with_function(&func).unwrap();
    let ret_block = func.dfg.make_block();
    func.dfg.set_terminator(ret_block, ret());
    func.dfg.set_terminator(b2, jmp(ret_block));
    func.dfg.set_terminator(
        b0,
        TerminatorInstruction::JmpIf { condition: cond, then_destination: b1, else_destination: ret_block },
    );
    cfg.recompute_block(&func, b0).unwrap();
    cfg.recompute_block(&func, b2).unwrap();
    assert_eq!(ids(cfg.predecessors(b2).unwrap()), vec![1]);
    assert_eq!(ids(cfg.successors(b2).unwrap()), vec![3]);
    assert_eq!(ids(cfg.predecessors(ret_block).unwrap()), vec![0, 2]);
}

#[test]
fn recompute_twice_is_stable() {
    let (mut func, b0, b1, b2) = branch_and_loop();
    let mut cfg = ControlFlowGraph::with_function(&func).unwrap();
    func.dfg.set_terminator(b1, jmp(b2));
    cfg.recompute_block(&func, b1).unwrap();
    let succs = ids(cfg.successors(b1).unwrap());
    let preds = ids(cfg.predecessors(b1).unwrap());
    cfg.recompute_block(&func, b1).unwrap();
    assert_eq!(ids(cfg.successors(b1).unwrap()), succs);
    assert_eq!(ids(cfg.predecessors(b1).unwrap()), preds);
    assert_eq!(succs, vec![2]);
    assert_eq!(preds, vec![0]);
    assert_eq!(ids(cfg.predecessors(b2).unwrap()), vec![0, 1]);
    assert_eq!(ids(cfg.successors(b0).unwrap()), vec![1, 2]);
}

#[test]
fn recompute_keeps_incoming_edges() {
    let (mut func, _b0, b1, b2) = branch_and_loop();
    let mut cfg = ControlFlowGraph::with_function(&func).unwrap();
    func.dfg.set_terminator(b1, jmp(b1));
    cfg.recompute_block(&func, b1).unwrap();
    assert_eq!(ids(cfg.predecessors(b1).unwrap()), vec![0, 1]);
    assert_eq!(ids(cfg.predecessors(b2).unwrap()), vec![0]);
}

#[test]
fn degree_violation_leaves_both_sides_unchanged() {
    let (func, b0, b1, b2) = branch_and_loop();
    let mut cfg = ControlFlowGraph::with_function(&func).unwrap();
    let other = BasicBlockId(7);
    assert_eq!(cfg.add_edge(b0, other), Err(CfgError::DegreeExceeded));
    assert_eq!(ids(cfg.successors(b0).unwrap()), vec![1, 2]);
    assert_eq!(cfg.predecessors(other), Err(CfgError::UnknownBlock));
    assert_eq!(cfg.add_edge(b2, b1), Err(CfgError::DegreeExceeded));
    assert_eq!(ids(cfg.successors(b2).unwrap()), Vec::<u32>::new());
    assert_eq!(ids(cfg.predecessors(b1).unwrap()), vec![0, 1]);
}

#[test]
fn existing_edge_is_refused_at_the_limit() {
    let (func, b0, b1, _b2) = branch_and_loop();
    let mut cfg = ControlFlowGraph::with_function(&func).unwrap();
    assert_eq!(cfg.add_edge(b0, b1), Err(CfgError::DegreeExceeded));
    assert_eq!(ids(cfg.successors(b0).unwrap()), vec![1, 2]);
    assert_eq!(ids(cfg.predecessors(b1).unwrap()), vec![0, 1]);
}

#[test]
fn existing_edge_with_room_is_accepted() {
    let mut func = Function::new("func".to_string(), FunctionId(0));
    let entry = func.entry_block();
    let next = func.dfg.make_block();
    func.dfg.set_terminator(entry, jmp(next));
    func.dfg.set_terminator(next, ret());
    let mut cfg = ControlFlowGraph::with_function(&func).unwrap();
    assert_eq!(cfg.add_edge(entry, next), Ok(()));
    assert_eq!(ids(cfg.successors(entry).unwrap()), vec![next.0]);
    assert_eq!(ids(cfg.predecessors(next).unwrap()), vec![entry.0]);
}

#[test]
fn three_predecessors_are_refused() {
    let mut func = Function::new("func".to_string(), FunctionId(0));
    let entry = func.entry_block();
    let cond = func.dfg.add_block_parameter(entry);
    let a = func.dfg.make_block();
    let b = func.dfg.make_block();
    let merge = func.dfg.make_block();
    func.dfg.set_terminator(
        entry,
        TerminatorInstruction::JmpIf { condition: cond, then_destination: a, else_destination: merge },
    );
    func.dfg.set_terminator(
        a,
        TerminatorInstruction::JmpIf { condition: cond, then_destination: b, else_destination: merge },
    );
    func.dfg.set_terminator(b, jmp(merge));
    func.dfg.set_terminator(merge, ret());
    assert_eq!(ControlFlowGraph::with_function(&func).err(), Some(CfgError::DegreeExceeded));
}

#[test]
fn unreachable_block_is_unknown() {
    let mut func = Function::new("func".to_string(), FunctionId(0));
    let entry = func.entry_block();
    let island = func.dfg.make_block();
    func.dfg.set_terminator(entry, ret());
    func.dfg.set_terminator(island, jmp(entry));
    let mut cfg = ControlFlowGraph::with_function(&func).unwrap();
    assert_eq!(cfg.successors(island), Err(CfgError::UnknownBlock));
    assert_eq!(cfg.predecessors(island), Err(CfgError::UnknownBlock));
    assert_eq!(cfg.predecessors(entry), Ok(vec![]));
    assert_eq!(cfg.recompute_block(&func, island), Err(CfgError::UnknownBlock));
}

#[test]
fn reachable_blocks_follow_terminators() {
    let (mut func, b0, b1, b2) = branch_and_loop();
    let island = func.dfg.make_block();
    func.dfg.set_terminator(island, jmp(b1));
    let mut r: Vec<u32> = func.reachable_blocks().into_iter().map(|b| b.0).collect();
    assert_eq!(r[0], b0.0);
    r.sort();
    assert_eq!(r, vec![b0.0, b1.0, b2.0]);
}

#[test]
fn block_successors_in_order() {
    let (func, b0, b1, b2) = branch_and_loop();
    assert_eq!(func.block_at(b0).successors(), vec![b2, b1]);
    assert_eq!(func.block_at(b1).successors(), vec![b1, b2]);
    assert_eq!(func.block_at(b2).successors(), vec![]);
}

#[test]
fn refused_recompute_changes_nothing() {
    let mut func = Function::new("func".to_string(), FunctionId(0));
    let entry = func.entry_block();
    let cond = func.dfg.add_block_parameter(entry);
    let a = func.dfg.make_block();
    let b = func.dfg.make_block();
    let merge = func.dfg.make_block();
    func.dfg.set_terminator(
        entry,
        TerminatorInstruction::JmpIf { condition: cond, then_destination: a, else_destination: merge },
    );
    func.dfg.set_terminator(
        a,
        TerminatorInstruction::JmpIf { condition: cond, then_destination: merge, else_destination: b },
    );
    func.dfg.set_terminator(b, ret());
    func.dfg.set_terminator(merge, ret());
    let mut cfg = ControlFlowGraph::with_function(&func).unwrap();
    func.dfg.set_terminator(b, jmp(merge));
    assert_eq!(cfg.recompute_block(&func, b), Err(CfgError::DegreeExceeded));
    assert_eq!(ids(cfg.successors(b).unwrap()), Vec::<u32>::new());
    assert_eq!(ids(cfg.predecessors(b).unwrap()), vec![a.0]);
    assert_eq!(ids(cfg.predecessors(merge).unwrap()), vec![entry.0, a.0]);
}

#[test]
fn both_branches_to_a_merge_block_are_refused() {
    let mut func = Function::new("func".to_string(), FunctionId(0));
    let entry = func.entry_block();
    let cond = func.dfg.add_block_parameter(entry);
    let a = func.dfg.make_block();
    let merge = func.dfg.make_block();
    func.dfg.set_terminator(
        entry,
        TerminatorInstruction::JmpIf { condition: cond, then_destination: a, else_destination: merge },
    );
    func.dfg.set_terminator(
        a,
        TerminatorInstruction::JmpIf { condition: cond, then_destination: merge, else_destination: merge },
    );
    func.dfg.set_terminator(merge, ret());
    assert_eq!(ControlFlowGraph::with_function(&func).err(), Some(CfgError::DegreeExceeded));
}

#[test]
fn both_branches_to_one_block() {
    let mut func = Function::new("func".to_string(), FunctionId(0));
    let entry = func.entry_block();
    let cond = func.dfg.add_block_parameter(entry);
    let target = func.dfg.make_block();
    func.dfg.set_terminator(
        entry,
        TerminatorInstruction::JmpIf { condition: cond, then_destination: target, else_destination: target },
    );
    func.dfg.set_terminator(target, ret());
    let cfg = ControlFlowGraph::with_function(&func).unwrap();
    assert_eq!(ids(cfg.successors(entry).unwrap()), vec![target.0]);
    assert_eq!(ids(cfg.predecessors(target).unwrap()), vec![entry.0]);
}

#[test]
fn recompute_to_a_merge_block_twice_changes_nothing() {
    let (mut func, b0, b1, b2) = branch_and_loop();
    let cond = func.dfg.blocks[0].parameters[0];
    let mut cfg = ControlFlowGraph::with_function(&func).unwrap();
    func.dfg.set_terminator(
        b1,
        TerminatorInstruction::JmpIf { condition: cond, then_destination: b2, else_destination: b2 },
    );
    assert_eq!(cfg.recompute_block(&func, b1), Err(CfgError::DegreeExceeded));
    assert_eq!(ids(cfg.successors(b1).unwrap()), vec![1, 2]);
    assert_eq!(ids(cfg.predecessors(b2).unwrap()), vec![0, 1]);
    assert_eq!(ids(cfg.predecessors(b1).unwrap()), vec![0, 1]);
    assert_eq!(ids(cfg.successors(b0).unwrap()), vec![1, 2]);
}
