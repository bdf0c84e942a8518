//! Tests of the control-flow simplification.
use ssa_passes::cfg::all_predecessors;
use ssa_passes::ir::{
    BinaryOp, BlockId, CastOp, CompareOp, Const, Function, InstKind, Module, Terminator, Type,
    UnaryOp, ValueId, ValueKind,
};
use ssa_passes::pass::simplify_cfg::SimplifyCfgPass;


fn run_pass(func: Function) -> Function {
    let mut module = Module::new();
    module.add_func(func);
    SimplifyCfgPass::new().run(&mut module);
    module.funcs.remove(0)
}

#[test]
fn removes_unreachable_blocks_and_remaps_ids() {
    let mut func = Function::new("unreachable", Type::I32);
    let cond = func.add_param("cond", Type::I1);
    let live = func.add_block("live");
    let dead = func.add_block("dead");
    let exit = func.add_block("exit");
    let zero = func.add_const(Const::Int(0));
    let one = func.add_const(Const::Int(1));
    func.set_terminator(
        func.entry,
        Terminator::Branch {
            cond,
            then_target: live,
            else_target: exit,
        },
    );
    let live_value = func
        .append_inst(
            live,
            InstKind::Binary {
                op: BinaryOp::Iadd,
                lhs: one,
                rhs: one,
            },
            Some(Type::I32),
        )
        .unwrap();
    func.set_terminator(live, Terminator::Jump(exit));
    let dead_value = func
        .append_inst(
            dead,
            InstKind::Binary {
                op: BinaryOp::Iadd,
                lhs: one,
                rhs: one,
            },
            Some(Type::I32),
        )
        .unwrap();
    func.set_terminator(dead, Terminator::Return(Some(dead_value)));
    let result = func
        .append_inst(
            exit,
            InstKind::Phi {
                incomings: vec![(func.entry, zero), (live, live_value)],
            },
            Some(Type::I32),
        )
        .unwrap();
    func.set_terminator(exit, Terminator::Return(Some(result)));
    assert!(func.verify().is_ok());

    let func = run_pass(func);

    assert_eq!(
        func.blocks
            .iter()
            .map(|block| block.name.as_str())
            .collect::<Vec<_>>(),
        vec!["entry", "live", "exit"]
    );
    assert!(matches!(
        func.value(dead_value).kind,
        ValueKind::Const(Const::Zero(Type::I32))
    ));
    assert!(matches!(
        func.blocks[0].terminator,
        Some(Terminator::Branch {
            then_target: BlockId(1),
            else_target: BlockId(2),
            ..
        })
    ));
    assert!(func.verify().is_ok());
}

#[test]
fn forwards_empty_jump_blocks_and_repairs_phis() {
    let mut func = Function::new("empty_jump", Type::I32);
    let cond = func.add_param("cond", Type::I1);
    let input = func.add_param("input", Type::I32);
    let left = func.add_block("left");
    let right = func.add_block("right");
    let empty = func.add_block("empty");
    let target = func.add_block("target");
    func.set_terminator(
        func.entry,
        Terminator::Branch {
            cond,
            then_target: left,
            else_target: right,
        },
    );
    for block in [left, right] {
        func.append_inst(
            block,
            InstKind::Call {
                name: "putint".to_string(),
                args: vec![input],
            },
            None,
        );
        func.set_terminator(block, Terminator::Jump(empty));
    }
    func.set_terminator(empty, Terminator::Jump(target));
    let merged = func
        .append_inst(
            target,
            InstKind::Phi {
                incomings: vec![(empty, input)],
            },
            Some(Type::I32),
        )
        .unwrap();
    func.set_terminator(target, Terminator::Return(Some(merged)));
    assert!(func.verify().is_ok());

    let func = run_pass(func);

    assert_eq!(
        func.blocks
            .iter()
            .map(|block| block.name.as_str())
            .collect::<Vec<_>>(),
        vec!["entry", "left", "right", "target"]
    );
    for block_idx in [1, 2] {
        assert_eq!(
            func.blocks[block_idx].terminator,
            Some(Terminator::Jump(BlockId(3)))
        );
    }
    assert!(matches!(func.blocks[3].insts[0].kind, InstKind::Nop));
    assert_eq!(
        func.blocks[3].terminator,
        Some(Terminator::Return(Some(input)))
    );
    assert!(func.verify().is_ok());
}

#[test]
fn merges_linear_blocks_and_rewrites_phi_values() {
    let mut func = Function::new("linear", Type::I32);
    let input = func.add_param("input", Type::I32);
    let body = func.add_block("body");
    let one = func.add_const(Const::Int(1));
    func.set_terminator(func.entry, Terminator::Jump(body));
    let phi = func
        .append_inst(
            body,
            InstKind::Phi {
                incomings: vec![(func.entry, input)],
            },
            Some(Type::I32),
        )
        .unwrap();
    let sum = func
        .append_inst(
            body,
            InstKind::Binary {
                op: BinaryOp::Iadd,
                lhs: phi,
                rhs: one,
            },
            Some(Type::I32),
        )
        .unwrap();
    func.set_terminator(body, Terminator::Return(Some(sum)));
    assert!(func.verify().is_ok());

    let func = run_pass(func);

    assert_eq!(func.blocks.len(), 1);
    assert_eq!(
        func.blocks[0].terminator,
        Some(Terminator::Return(Some(sum)))
    );
    assert!(matches!(
        func.value(sum).kind,
        ValueKind::Inst(BlockId(0), _)
    ));
    let ValueKind::Inst(owner, inst_idx) = func.value(sum).kind else {
        unreachable!();
    };
    assert!(matches!(
        func.blocks[owner.0].insts[inst_idx].kind,
        InstKind::Binary {
            lhs,
            op: BinaryOp::Iadd,
            ..
        } if lhs == input
    ));
    assert!(func.verify().is_ok());
}

#[test]
fn removes_unreachable_phi_cycles_before_rewriting_values() {
    let mut func = Function::new("dead_phi_cycle", Type::Void);
    let dead_a = func.add_block("dead_a");
    let dead_b = func.add_block("dead_b");
    let zero = func.add_const(Const::Int(0));
    func.set_terminator(func.entry, Terminator::Return(None));
    let phi_a = func
        .append_inst(
            dead_a,
            InstKind::Phi {
                incomings: vec![(dead_b, zero)],
            },
            Some(Type::I32),
        )
        .unwrap();
    let phi_b = func
        .append_inst(
            dead_b,
            InstKind::Phi {
                incomings: vec![(dead_a, phi_a)],
            },
            Some(Type::I32),
        )
        .unwrap();
    let ValueKind::Inst(owner, inst_idx) = func.value(phi_a).kind else {
        unreachable!();
    };
    let InstKind::Phi { incomings } = &mut func.blocks[owner.0].insts[inst_idx].kind else {
        unreachable!();
    };
    incomings[0].1 = phi_b;
    func.append_inst(
        dead_a,
        InstKind::Call {
            name: "putint".to_string(),
            args: vec![phi_a],
        },
        None,
    );
    func.set_terminator(dead_a, Terminator::Jump(dead_b));
    func.set_terminator(dead_b, Terminator::Jump(dead_a));
    assert!(func.verify().is_ok());

    let func = run_pass(func);

    assert_eq!(func.blocks.len(), 1);
    assert!(matches!(
        func.value(phi_a).kind,
        ValueKind::Const(Const::Zero(Type::I32))
    ));
    assert!(matches!(
        func.value(phi_b).kind,
        ValueKind::Const(Const::Zero(Type::I32))
    ));
    assert!(func.verify().is_ok());
}

#[test]
fn preserves_loop_headers_with_multiple_predecessors() {
    let mut func = Function::new("loop", Type::I32);
    let keep_going = func.add_param("keep_going", Type::I1);
    let header = func.add_block("header");
    let body = func.add_block("body");
    let exit = func.add_block("exit");
    let zero = func.add_const(Const::Int(0));
    let one = func.add_const(Const::Int(1));
    func.set_terminator(func.entry, Terminator::Jump(header));
    let counter = func
        .append_inst(
            header,
            InstKind::Phi {
                incomings: vec![(func.entry, zero), (body, zero)],
            },
            Some(Type::I32),
        )
        .unwrap();
    func.set_terminator(
        header,
        Terminator::Branch {
            cond: keep_going,
            then_target: body,
            else_target: exit,
        },
    );
    let next = func
        .append_inst(
            body,
            InstKind::Binary {
                op: BinaryOp::Iadd,
                lhs: counter,
                rhs: one,
            },
            Some(Type::I32),
        )
        .unwrap();
    let ValueKind::Inst(owner, inst_idx) = func.value(counter).kind else {
        unreachable!();
    };
    let InstKind::Phi { incomings } = &mut func.blocks[owner.0].insts[inst_idx].kind else {
        unreachable!();
    };
    incomings[1].1 = next;
    func.set_terminator(body, Terminator::Jump(header));
    func.set_terminator(exit, Terminator::Return(Some(counter)));
    assert!(func.verify().is_ok());

    let func = run_pass(func);

    let header = func
        .blocks
        .iter()
        .position(|block| block.name == "header")
        .map(BlockId)
        .expect("loop header must remain present");
    assert_eq!(all_predecessors(&func)[header.0].len(), 2);
    assert!(func.blocks[header.0]
        .insts
        .iter()
        .any(|inst| matches!(inst.kind, InstKind::Phi { .. })));
    assert!(func.verify().is_ok());
}

#[test]
fn skips_forwarding_when_phi_predecessors_would_conflict() {
    let mut func = Function::new("conflict", Type::I32);
    let cond = func.add_param("cond", Type::I1);
    let direct = func.add_param("direct", Type::I32);
    let indirect = func.add_param("indirect", Type::I32);
    let empty = func.add_block("empty");
    let target = func.add_block("target");
    func.set_terminator(
        func.entry,
        Terminator::Branch {
            cond,
            then_target: empty,
            else_target: target,
        },
    );
    func.set_terminator(empty, Terminator::Jump(target));
    let result = func
        .append_inst(
            target,
            InstKind::Phi {
                incomings: vec![(func.entry, direct), (empty, indirect)],
            },
            Some(Type::I32),
        )
        .unwrap();
    func.set_terminator(target, Terminator::Return(Some(result)));
    assert!(func.verify().is_ok());
    let before = func.clone();

    let func = run_pass(func);

    assert_eq!(func, before);
    assert!(func.verify().is_ok());
}

#[test]
fn tests_repeated_runs_are_idempotent_and_verified() {
    let mut func = Function::new("idempotent", Type::I32);
    let input = func.add_param("input", Type::I32);
    let empty = func.add_block("empty");
    let exit = func.add_block("exit");
    func.set_terminator(func.entry, Terminator::Jump(empty));
    func.set_terminator(empty, Terminator::Jump(exit));
    func.set_terminator(exit, Terminator::Return(Some(input)));

    let once = run_pass(func);
    let twice = run_pass(once.clone());

    assert_eq!(twice, once);
    assert!(twice.verify().is_ok());
}

fn append(func: &mut Function, block: BlockId, kind: InstKind, ty: Type) -> ValueId {
    func.append_inst(block, kind, Some(ty)).unwrap()
}

fn binary(op: BinaryOp, lhs: ValueId, rhs: ValueId) -> InstKind {
    InstKind::Binary { op, lhs, rhs }
}

fn compare(op: CompareOp, lhs: ValueId, rhs: ValueId) -> InstKind {
    InstKind::ICompare { op, lhs, rhs }
}

fn kind_of(func: &Function, value: ValueId) -> &InstKind {
    let ValueKind::Inst(block, at) = func.value(value).kind else {
        panic!("not an instruction");
    };
    &func.blocks[block.0].insts[at].kind
}

fn returned(func: &Function) -> ValueId {
    for block in &func.blocks {
        if let Some(Terminator::Return(Some(value))) = block.terminator {
            return value;
        }
    }
    panic!("no value is returned");
}

#[test]
fn a_constant_branch_becomes_a_jump() {
    let mut func = Function::new("constant", Type::I32);
    let yes = func.add_const(Const::Bool(true));
    let a = func.add_const(Const::Int(3));
    let b = func.add_const(Const::Int(4));
    let left = func.add_block("left");
    let right = func.add_block("right");
    let exit = func.add_block("exit");
    func.set_terminator(
        func.entry,
        Terminator::Branch { cond: yes, then_target: left, else_target: right },
    );
    func.set_terminator(left, Terminator::Jump(exit));
    func.set_terminator(right, Terminator::Jump(exit));
    let phi = append(
        &mut func,
        exit,
        InstKind::Phi { incomings: vec![(left, a), (right, b)] },
        Type::I32,
    );
    func.set_terminator(exit, Terminator::Return(Some(phi)));
    assert!(func.verify().is_ok());
    let func = run_pass(func);
    assert_eq!(func.blocks.len(), 1);
    assert_eq!(returned(&func), a);
}

#[test]
fn negative_zero_is_a_false_condition() {
    let mut func = Function::new("float", Type::I32);
    let cond = func.add_const(Const::Float(0x8000_0000));
    let a = func.add_const(Const::Int(3));
    let b = func.add_const(Const::Int(4));
    let left = func.add_block("left");
    let right = func.add_block("right");
    func.set_terminator(
        func.entry,
        Terminator::Branch { cond, then_target: left, else_target: right },
    );
    func.set_terminator(left, Terminator::Return(Some(a)));
    func.set_terminator(right, Terminator::Return(Some(b)));
    let func = run_pass(func);
    assert_eq!(returned(&func), b);
}

#[test]
fn a_short_circuit_becomes_an_or() {
    let mut func = Function::new("short", Type::I32);
    let x = func.add_param("x", Type::I32);
    let y = func.add_param("y", Type::I32);
    let zero = func.add_const(Const::Int(0));
    let yes = func.add_const(Const::Bool(true));
    let rhs_block = func.add_block("rhs");
    let merge = func.add_block("merge");
    let on_true = func.add_block("true");
    let on_false = func.add_block("false");
    let entry = func.entry;
    let first = append(&mut func, entry, compare(CompareOp::Ne, x, zero), Type::I1);
    func.set_terminator(
        entry,
        Terminator::Branch { cond: first, then_target: merge, else_target: rhs_block },
    );
    let second = append(&mut func, rhs_block, compare(CompareOp::Ne, y, zero), Type::I1);
    func.set_terminator(rhs_block, Terminator::Jump(merge));
    let phi = append(
        &mut func,
        merge,
        InstKind::Phi { incomings: vec![(entry, yes), (rhs_block, second)] },
        Type::I1,
    );
    func.set_terminator(
        merge,
        Terminator::Branch { cond: phi, then_target: on_true, else_target: on_false },
    );
    for (block, arg) in [(on_true, x), (on_false, y)] {
        func.append_inst(
            block,
            InstKind::Call { name: "putint".to_string(), args: vec![arg] },
            None,
        );
        func.set_terminator(block, Terminator::Return(Some(arg)));
    }
    assert!(func.verify().is_ok());
    let func = run_pass(func);
    assert_eq!(func.blocks.len(), 3);
    let Some(Terminator::Branch { cond, .. }) = func.blocks[0].terminator else {
        panic!("the entry must still branch");
    };
    assert!(matches!(
        kind_of(&func, cond),
        InstKind::Binary { op: BinaryOp::Or, lhs, .. } if *lhs == first
    ));
    assert!(func.verify().is_ok());
}

#[test]
fn a_conditional_update_becomes_arithmetic() {
    let mut func = Function::new("update", Type::I32);
    let cond = func.add_param("cond", Type::I1);
    let base = func.add_param("base", Type::I32);
    let delta = func.add_param("delta", Type::I32);
    let update = func.add_block("update");
    let merge = func.add_block("merge");
    let entry = func.entry;
    func.set_terminator(
        entry,
        Terminator::Branch { cond, then_target: merge, else_target: update },
    );
    let sum = append(&mut func, update, binary(BinaryOp::Isub, base, delta), Type::I32);
    func.set_terminator(update, Terminator::Jump(merge));
    let phi = append(
        &mut func,
        merge,
        InstKind::Phi { incomings: vec![(entry, base), (update, sum)] },
        Type::I32,
    );
    func.set_terminator(merge, Terminator::Return(Some(phi)));
    assert!(func.verify().is_ok());
    let func = run_pass(func);
    assert_eq!(func.blocks.len(), 1);
    let InstKind::Binary { op: BinaryOp::Isub, lhs, rhs } = *kind_of(&func, returned(&func)) else {
        panic!("an update must remain");
    };
    assert_eq!(lhs, base);
    let InstKind::Binary { op: BinaryOp::Imul, lhs, rhs } = *kind_of(&func, rhs) else {
        panic!("the step must be scaled");
    };
    assert_eq!(lhs, delta);
    let InstKind::Cast { op: CastOp::BoolToI32, value } = *kind_of(&func, rhs) else {
        panic!("the condition must be an integer");
    };
    assert_eq!(
        *kind_of(&func, value),
        InstKind::Unary { op: UnaryOp::Not, value: cond }
    );
    assert!(func.verify().is_ok());
}

#[test]
fn two_boolean_stores_become_one() {
    let mut func = Function::new("stores", Type::Void);
    let cond = func.add_param("cond", Type::I1);
    let ptr = func.add_param("ptr", Type::Ptr(Box::new(Type::I32)));
    let zero = func.add_const(Const::Int(0));
    let one = func.add_const(Const::Int(1));
    let left = func.add_block("left");
    let right = func.add_block("right");
    let merge = func.add_block("merge");
    func.set_terminator(
        func.entry,
        Terminator::Branch { cond, then_target: left, else_target: right },
    );
    func.append_inst(left, InstKind::Store { ptr, value: zero }, None);
    func.append_inst(right, InstKind::Store { ptr, value: one }, None);
    func.set_terminator(left, Terminator::Jump(merge));
    func.set_terminator(right, Terminator::Jump(merge));
    func.set_terminator(merge, Terminator::Return(None));
    assert!(func.verify().is_ok());
    let func = run_pass(func);
    assert_eq!(func.blocks.len(), 1);
    let stores: Vec<ValueId> = func.blocks[0]
        .insts
        .iter()
        .filter_map(|inst| match inst.kind {
            InstKind::Store { value, .. } => Some(value),
            _ => None,
        })
        .collect();
    assert_eq!(stores.len(), 1);
    let InstKind::Cast { op: CastOp::BoolToI32, value } = *kind_of(&func, stores[0]) else {
        panic!("the stored value must be the negated condition");
    };
    assert_eq!(
        *kind_of(&func, value),
        InstKind::Unary { op: UnaryOp::Not, value: cond }
    );
    assert!(func.verify().is_ok());
}

#[test]
fn a_known_bit_threads_a_jump() {
    // if (x & 1) == 0 { odd = 0 } else { odd = 7 }; if (x & 1) == 0 { .. } else { .. }
    let mut func = Function::new("bits", Type::I32);
    let x = func.add_param("x", Type::I32);
    let zero = func.add_const(Const::Int(0));
    let one = func.add_const(Const::Int(1));
    let seven = func.add_const(Const::Int(7));
    let even = func.add_block("even");
    let odd = func.add_block("odd");
    let header = func.add_block("header");
    let left = func.add_block("left");
    let right = func.add_block("right");
    let entry = func.entry;
    let masked = append(&mut func, entry, binary(BinaryOp::Iand, x, one), Type::I32);
    let is_even = append(&mut func, entry, compare(CompareOp::Eq, masked, zero), Type::I1);
    func.set_terminator(
        entry,
        Terminator::Branch { cond: is_even, then_target: even, else_target: odd },
    );
    for block in [even, odd] {
        func.append_inst(
            block,
            InstKind::Call { name: "putint".to_string(), args: vec![x] },
            None,
        );
        func.set_terminator(block, Terminator::Jump(header));
    }
    let phi = append(
        &mut func,
        header,
        InstKind::Phi { incomings: vec![(even, zero), (odd, seven)] },
        Type::I32,
    );
    let again = append(&mut func, header, binary(BinaryOp::Iand, x, one), Type::I32);
    let test = append(&mut func, header, compare(CompareOp::Eq, again, zero), Type::I1);
    func.set_terminator(
        header,
        Terminator::Branch { cond: test, then_target: left, else_target: right },
    );
    for (block, step) in [(left, one), (right, seven)] {
        let sum = append(&mut func, block, binary(BinaryOp::Iadd, phi, step), Type::I32);
        func.set_terminator(block, Terminator::Return(Some(sum)));
    }
    assert!(func.verify().is_ok());
    let func = run_pass(func);
    assert!(func.verify().is_ok());
    assert!(!func.blocks.iter().any(|block| block.name == "header"));
    assert_eq!(func.blocks.len(), 5);
    for (name, from, step) in [("even", zero, one), ("left", seven, one), ("right", seven, seven)] {
        let block = func.blocks.iter().find(|block| block.name == name).unwrap();
        let Some(Terminator::Return(Some(value))) = block.terminator else {
            panic!("each arm must return");
        };
        assert_eq!(*kind_of(&func, value), binary(BinaryOp::Iadd, from, step));
    }
}

#[test]
fn equal_updates_on_two_edges_are_merged() {
    let mut func = Function::new("tails", Type::I32);
    let cond = func.add_param("cond", Type::I1);
    let x = func.add_param("x", Type::I32);
    let zero = func.add_const(Const::Int(0));
    let one = func.add_const(Const::Int(1));
    let header = func.add_block("header");
    let body = func.add_block("body");
    let left = func.add_block("left");
    let right = func.add_block("right");
    let exit = func.add_block("exit");
    let entry = func.entry;
    func.set_terminator(entry, Terminator::Jump(header));
    let i = append(&mut func, header, InstKind::Phi { incomings: vec![(entry, zero)] }, Type::I32);
    let more = append(&mut func, header, compare(CompareOp::Lt, i, x), Type::I1);
    func.set_terminator(
        header,
        Terminator::Branch { cond: more, then_target: body, else_target: exit },
    );
    func.append_inst(body, InstKind::Call { name: "putint".to_string(), args: vec![i] }, None);
    func.set_terminator(
        body,
        Terminator::Branch { cond, then_target: left, else_target: right },
    );
    let mut nexts = Vec::new();
    for block in [left, right] {
        func.append_inst(
            block,
            InstKind::Call { name: "putint".to_string(), args: vec![x] },
            None,
        );
        nexts.push(append(&mut func, block, binary(BinaryOp::Iadd, i, one), Type::I32));
        func.set_terminator(block, Terminator::Jump(header));
    }
    let InstKind::Phi { incomings } = &mut func.blocks[header.0].insts[0].kind else {
        panic!("a phi leads the header");
    };
    incomings.push((left, nexts[0]));
    incomings.push((right, nexts[1]));
    func.set_terminator(exit, Terminator::Return(Some(i)));
    assert!(func.verify().is_ok());
    let func = run_pass(func);
    assert!(func.verify().is_ok());
    assert!(func.blocks.iter().any(|block| block.name == "tail.merge"));
    let header = func.blocks.iter().position(|block| block.name == "header").unwrap();
    assert_eq!(all_predecessors(&func)[header].len(), 2);
}

#[test]
fn an_empty_preheader_can_be_kept() {
    let mut func = Function::new("preheader", Type::I32);
    let cond = func.add_param("cond", Type::I1);
    let x = func.add_param("x", Type::I32);
    let zero = func.add_const(Const::Int(0));
    let one = func.add_const(Const::Int(1));
    let other = func.add_block("other");
    let preheader = func.add_block("preheader");
    let header = func.add_block("header");
    let exit = func.add_block("exit");
    let entry = func.entry;
    func.set_terminator(
        entry,
        Terminator::Branch { cond, then_target: preheader, else_target: other },
    );
    func.append_inst(other, InstKind::Call { name: "putint".to_string(), args: vec![x] }, None);
    func.set_terminator(other, Terminator::Jump(preheader));
    func.set_terminator(preheader, Terminator::Jump(header));
    let i = append(
        &mut func,
        header,
        InstKind::Phi { incomings: vec![(preheader, zero)] },
        Type::I32,
    );
    let next = append(&mut func, header, binary(BinaryOp::Iadd, i, one), Type::I32);
    let more = append(&mut func, header, compare(CompareOp::Lt, next, x), Type::I1);
    let InstKind::Phi { incomings } = &mut func.blocks[header.0].insts[0].kind else {
        panic!("a phi leads the header");
    };
    incomings.push((header, next));
    func.set_terminator(
        header,
        Terminator::Branch { cond: more, then_target: header, else_target: exit },
    );
    func.set_terminator(exit, Terminator::Return(Some(i)));
    assert!(func.verify().is_ok());

    let mut module = Module::new();
    module.add_func(func.clone());
    SimplifyCfgPass::preserving_loop_preheaders().run(&mut module);
    assert!(module.funcs[0].blocks.iter().any(|block| block.name == "preheader"));

    let func = run_pass(func);
    assert!(!func.blocks.iter().any(|block| block.name == "preheader"));
    assert!(func.verify().is_ok());
}
