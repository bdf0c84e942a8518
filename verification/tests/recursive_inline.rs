//! Tests of inlining.
use ssa_passes::ir::{
    BinaryOp, BlockId, CompareOp, Const, Function, InstKind, Module, Terminator, Type, ValueKind,
};
use ssa_passes::pass::recursive_inline::analyze::MAX_SOURCE_INSTS;
use ssa_passes::pass::recursive_inline::{
    CfgInlinePass, RecursiveInlinePass, MAX_MODULE_GROWTH_BLOCKS,
};
use ssa_passes::pass::{run_pipeline, OptLevel, PassOptions};

#[test]
fn cfg_inlines_readonly_float_pointer_loops() {
    let mut reduce = Function::new("reduce_values", Type::F32);
    let values = reduce.add_param("values", Type::Ptr(Box::new(Type::F32)));
    let count = reduce.add_param("count", Type::I32);
    let zero_i32 = reduce.add_const(Const::Int(0));
    let zero_f32 = reduce.add_const(Const::Float(0));
    let one = reduce.add_const(Const::Int(1));
    let header = reduce.add_block("header");
    let body = reduce.add_block("body");
    let exit = reduce.add_block("exit");
    reduce.set_terminator(reduce.entry, Terminator::Jump(header));
    let index = reduce
        .append_inst(header, InstKind::Phi { incomings: vec![] }, Some(Type::I32))
        .unwrap();
    let sum = reduce
        .append_inst(header, InstKind::Phi { incomings: vec![] }, Some(Type::F32))
        .unwrap();
    let condition = reduce
        .append_inst(
            header,
            InstKind::ICompare {
                op: CompareOp::Lt,
                lhs: index,
                rhs: count,
            },
            Some(Type::I1),
        )
        .unwrap();
    reduce.set_terminator(
        header,
        Terminator::Branch {
            cond: condition,
            then_target: body,
            else_target: exit,
        },
    );
    let address = reduce
        .append_inst(
            body,
            InstKind::Gep {
                base: values,
                indices: vec![index],
            },
            Some(Type::Ptr(Box::new(Type::F32))),
        )
        .unwrap();
    let loaded = reduce
        .append_inst(body, InstKind::Load { ptr: address }, Some(Type::F32))
        .unwrap();
    let next_sum = reduce
        .append_inst(
            body,
            InstKind::Binary {
                op: BinaryOp::Fadd,
                lhs: sum,
                rhs: loaded,
            },
            Some(Type::F32),
        )
        .unwrap();
    let next_index = reduce
        .append_inst(
            body,
            InstKind::Binary {
                op: BinaryOp::Iadd,
                lhs: index,
                rhs: one,
            },
            Some(Type::I32),
        )
        .unwrap();
    reduce.set_terminator(body, Terminator::Jump(header));
    reduce.set_terminator(exit, Terminator::Return(Some(sum)));
    reduce.blocks[header.0].insts[0].kind = InstKind::Phi {
        incomings: vec![(reduce.entry, zero_i32), (body, next_index)],
    };
    reduce.blocks[header.0].insts[1].kind = InstKind::Phi {
        incomings: vec![(reduce.entry, zero_f32), (body, next_sum)],
    };

    let mut caller = Function::new("caller", Type::F32);
    let caller_values = caller.add_param(
        "values",
        Type::Ptr(Box::new(Type::Array {
            elem: Box::new(Type::F32),
            len: 16,
        })),
    );
    let caller_count = caller.add_param("count", Type::I32);
    let result = caller
        .append_inst(
            caller.entry,
            InstKind::Call {
                name: "reduce_values".to_string(),
                args: vec![caller_values, caller_count],
            },
            Some(Type::F32),
        )
        .unwrap();
    caller.set_terminator(caller.entry, Terminator::Return(Some(result)));

    let mut module = Module::new();
    module.add_func(reduce);
    module.add_func(caller);
    CfgInlinePass::new(false).run(&mut module);

    assert!(module.funcs[1].blocks.iter().all(|block| {
        block
            .insts
            .iter()
            .all(|inst| !matches!(inst.kind, InstKind::Call { .. }))
    }));
    assert!(module.funcs.iter().all(|func| func.verify().is_ok()));
}

#[test]
fn inlines_different_names_and_cfgs_from_one_snapshot() {
    let first = branching_recursion("spruce");
    let second = phi_recursion("willow");
    let original_blocks = [first.blocks.len(), second.blocks.len()];
    let mut module = Module::new();
    module.add_func(first);
    module.add_func(second);

    RecursiveInlinePass::new().run(&mut module);

    for (idx, func) in module.funcs.iter().enumerate() {
        assert!(func.has_recursive_cfg_inline_decision());
        assert_eq!(
            self_call_count(func),
            1,
            "cloned calls must not expand again"
        );
        assert_eq!(
            func.blocks.len(),
            original_blocks[idx] * 2 + 1,
            "one continuation and one source CFG must be added"
        );
        assert!(func.verify().is_ok());
    }
}

#[test]
fn merges_multiple_returns_and_remaps_existing_phis() {
    let func = phi_recursion("maple");
    let call_result = func
        .blocks
        .iter()
        .flat_map(|block| &block.insts)
        .find_map(|inst| matches!(inst.kind, InstKind::Call { .. }).then_some(inst.result?))
        .unwrap();
    let consumer = func
        .blocks
        .iter()
        .flat_map(|block| &block.insts)
        .find_map(|inst| match inst.kind {
            InstKind::Binary {
                lhs,
                op: BinaryOp::Iadd,
                ..
            } if lhs == call_result => inst.result,
            _ => None,
        })
        .unwrap();
    let original_phi_count = phi_count(&func);
    let mut module = Module::new();
    module.add_func(func);

    RecursiveInlinePass::new().run(&mut module);
    let func = &module.funcs[0];
    let ValueKind::Inst(consumer_block, consumer_idx) = func.value(consumer).kind else {
        panic!("consumer must remain instruction-backed");
    };
    let InstKind::Binary { lhs: merged, .. } =
        func.block(consumer_block).insts[consumer_idx].kind
    else {
        panic!("consumer must remain an add");
    };
    let ValueKind::Inst(phi_block, phi_idx) = func.value(merged).kind else {
        panic!("recursive result must be merged by a phi");
    };
    let InstKind::Phi { incomings } = &func.block(phi_block).insts[phi_idx].kind else {
        panic!("recursive result must be merged by a phi");
    };

    assert_eq!(incomings.len(), 2, "both cloned returns must reach the phi");
    assert_eq!(phi_count(func), original_phi_count * 2 + 1);
    assert!(func.verify().is_ok());
}

#[test]
fn rejects_a_source_over_the_instruction_budget() {
    let func = oversized_recursion("ash");
    let mut module = Module::new();
    module.add_func(func);
    let before = module.clone();

    RecursiveInlinePass::new().run(&mut module);

    assert_eq!(module, before);
    assert!(module.funcs[0].verify().is_ok());
}

#[test]
fn leaves_non_recursive_functions_unchanged() {
    let mut func = Function::new("elm", Type::I32);
    let value = func.add_param("input", Type::I32);
    let one = func.add_const(Const::Int(1));
    let sum = func
        .append_inst(
            func.entry,
            InstKind::Binary {
                op: BinaryOp::Iadd,
                lhs: value,
                rhs: one,
            },
            Some(Type::I32),
        )
        .unwrap();
    func.set_terminator(func.entry, Terminator::Return(Some(sum)));
    let mut module = Module::new();
    module.add_func(func);
    let before = module.clone();

    RecursiveInlinePass::new().run(&mut module);

    assert_eq!(module, before);
    assert!(module.funcs[0].verify().is_ok());
}

#[test]
fn recursive_inline_repeated_runs_are_idempotent_and_verified() {
    let mut module = Module::new();
    module.add_func(branching_recursion("birch"));
    RecursiveInlinePass::new().run(&mut module);
    let once = module.clone();

    RecursiveInlinePass::new().run(&mut module);

    assert_eq!(module, once);
    assert!(module.funcs.iter().all(|func| func.verify().is_ok()));
}

#[test]
fn module_budget_refusal_is_idempotent() {
    let mut module = Module::new();
    for idx in 0..65 {
        module.add_func(branching_recursion(&format!("tree_{idx}")));
    }

    RecursiveInlinePass::new().run(&mut module);
    let transformed = module
        .funcs
        .iter()
        .filter(|func| func.blocks.len() > 3)
        .count();
    let once = module.clone();
    RecursiveInlinePass::new().run(&mut module);

    assert_eq!(transformed, MAX_MODULE_GROWTH_BLOCKS / 4);
    assert!(module
        .funcs
        .iter()
        .all(Function::has_recursive_cfg_inline_decision));
    assert_eq!(module, once);
    assert!(module.funcs.iter().all(|func| func.verify().is_ok()));
}

#[test]
fn pipeline_enables_recursive_inlining_only_at_o1() {
    let func = branching_recursion("larch");
    let original_blocks = func.blocks.len();
    let mut o0 = Module::new();
    o0.add_func(func.clone());
    let mut o1 = Module::new();
    o1.add_func(func);
    let options = PassOptions {
        enable_simple_loop_unroll: false,
        small_expr_inline_rounds: 1,
        cfg_inline_rounds: 1,
        cfg_inline_global_loads: false,
        recursive_inline_rounds: 1,
        enable_constant_address_count_reduction: false,
        enable_recursive_const_specialization: false,
        enable_initialized_global_propagation: false,
        enable_uniform_constant_arguments: false,
        enable_loop_call_memoize: false,
        enable_loop_invariant_call_memoize: false,
        enable_regional_global_scalar_promotion: false,
        enable_write_only_alloca_cleanup_before_inline: true,
    };

    run_pipeline(&mut o0, OptLevel::O0, options);
    run_pipeline(&mut o1, OptLevel::O1, options);

    assert!(!o0.funcs[0].has_recursive_cfg_inline_decision());
    assert_eq!(o0.funcs[0].blocks.len(), original_blocks);
    assert!(o1.funcs[0].has_recursive_cfg_inline_decision());
    assert!(o1.funcs[0].blocks.len() > original_blocks);
    assert!(o0.funcs[0].verify().is_ok());
    assert!(o1.funcs[0].verify().is_ok());
}

#[test]
fn omits_unreachable_blocks_from_the_cloned_cfg() {
    let mut func = branching_recursion("hemlock");
    let original_blocks = func.blocks.len();
    let dead = func.add_block("detached");
    let zero = func.add_const(Const::Int(0));
    func.set_terminator(dead, Terminator::Return(Some(zero)));
    let mut module = Module::new();
    module.add_func(func);

    RecursiveInlinePass::new().run(&mut module);

    let func = &module.funcs[0];
    assert!(func.has_recursive_cfg_inline_decision());
    assert_eq!(func.blocks.len(), original_blocks + 1 + original_blocks + 1);
    assert!(func.verify().is_ok());
}

#[test]
fn conservatively_rejects_active_stack_allocation() {
    let mut func = branching_recursion("fir");
    func.insert_inst(
        func.entry,
        0,
        InstKind::Alloca { ty: Type::I32 },
        Some(Type::Ptr(Box::new(Type::I32))),
    );
    assert!(func.verify().is_ok());
    let mut module = Module::new();
    module.add_func(func);
    let before = module.clone();

    RecursiveInlinePass::new().run(&mut module);

    assert_eq!(module, before);
}

fn branching_recursion(name: &str) -> Function {
    let mut func = Function::new(name, Type::I32);
    let input = func.add_param("seed", Type::I32);
    let zero = func.add_const(Const::Int(0));
    let one = func.add_const(Const::Int(1));
    let base = func.add_block("stop");
    let recurse = func.add_block("advance");
    let condition = func
        .append_inst(
            func.entry,
            InstKind::ICompare {
                op: CompareOp::Le,
                lhs: input,
                rhs: zero,
            },
            Some(Type::I1),
        )
        .unwrap();
    func.set_terminator(
        func.entry,
        Terminator::Branch {
            cond: condition,
            then_target: base,
            else_target: recurse,
        },
    );
    func.set_terminator(base, Terminator::Return(Some(input)));
    let next = func
        .append_inst(
            recurse,
            InstKind::Binary {
                op: BinaryOp::Isub,
                lhs: input,
                rhs: one,
            },
            Some(Type::I32),
        )
        .unwrap();
    let call = func
        .append_inst(
            recurse,
            InstKind::Call {
                name: name.to_string(),
                args: vec![next],
            },
            Some(Type::I32),
        )
        .unwrap();
    let result = func
        .append_inst(
            recurse,
            InstKind::Binary {
                op: BinaryOp::Iadd,
                lhs: call,
                rhs: input,
            },
            Some(Type::I32),
        )
        .unwrap();
    func.set_terminator(recurse, Terminator::Return(Some(result)));
    assert!(func.verify().is_ok());
    func
}

fn phi_recursion(name: &str) -> Function {
    let mut func = Function::new(name, Type::I32);
    let input = func.add_param("amount", Type::I32);
    let zero = func.add_const(Const::Int(0));
    let one = func.add_const(Const::Int(1));
    let base = func.add_block("base.case");
    let dispatch = func.add_block("dispatch");
    let left = func.add_block("left.path");
    let right = func.add_block("right.path");
    let join = func.add_block("merge.path");
    let done = func
        .append_inst(
            func.entry,
            InstKind::ICompare {
                op: CompareOp::Le,
                lhs: input,
                rhs: zero,
            },
            Some(Type::I1),
        )
        .unwrap();
    func.set_terminator(
        func.entry,
        Terminator::Branch {
            cond: done,
            then_target: base,
            else_target: dispatch,
        },
    );
    func.set_terminator(base, Terminator::Return(Some(input)));
    let choose = func
        .append_inst(
            dispatch,
            InstKind::ICompare {
                op: CompareOp::Eq,
                lhs: input,
                rhs: one,
            },
            Some(Type::I1),
        )
        .unwrap();
    func.set_terminator(
        dispatch,
        Terminator::Branch {
            cond: choose,
            then_target: left,
            else_target: right,
        },
    );
    func.set_terminator(left, Terminator::Jump(join));
    func.set_terminator(right, Terminator::Jump(join));
    let selected = func
        .append_inst(
            join,
            InstKind::Phi {
                incomings: vec![(left, input), (right, one)],
            },
            Some(Type::I32),
        )
        .unwrap();
    let next = func
        .append_inst(
            join,
            InstKind::Binary {
                op: BinaryOp::Isub,
                lhs: input,
                rhs: selected,
            },
            Some(Type::I32),
        )
        .unwrap();
    let call = func
        .append_inst(
            join,
            InstKind::Call {
                name: name.to_string(),
                args: vec![next],
            },
            Some(Type::I32),
        )
        .unwrap();
    let result = func
        .append_inst(
            join,
            InstKind::Binary {
                op: BinaryOp::Iadd,
                lhs: call,
                rhs: selected,
            },
            Some(Type::I32),
        )
        .unwrap();
    func.set_terminator(join, Terminator::Return(Some(result)));
    assert!(func.verify().is_ok());
    func
}

fn oversized_recursion(name: &str) -> Function {
    let mut func = branching_recursion(name);
    let recurse = func
        .blocks
        .iter()
        .position(|block| {
            block
                .insts
                .iter()
                .any(|inst| matches!(inst.kind, InstKind::Call { .. }))
        })
        .map(BlockId)
        .unwrap();
    let one = func.add_const(Const::Int(1));
    for _ in 0..=MAX_SOURCE_INSTS {
        func.insert_inst(
            recurse,
            1,
            InstKind::Binary {
                op: BinaryOp::Iadd,
                lhs: one,
                rhs: one,
            },
            Some(Type::I32),
        );
    }
    assert!(func.verify().is_ok());
    func
}

fn self_call_count(func: &Function) -> usize {
    func.blocks
        .iter()
        .flat_map(|block| &block.insts)
        .filter(|inst| matches!(&inst.kind, InstKind::Call { name, .. } if name == &func.name))
        .count()
}

fn phi_count(func: &Function) -> usize {
    func.blocks
        .iter()
        .flat_map(|block| &block.insts)
        .filter(|inst| matches!(inst.kind, InstKind::Phi { .. }))
        .count()
}
