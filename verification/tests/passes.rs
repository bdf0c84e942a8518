//! Tests of the passes over loops, calls and memory. Functions are built by hand
//! and run by a small interpreter, before and after a pass.
use ssa_passes::cfg::{ControlFlowGraph, Dominators};
use ssa_passes::ir::{
    BinaryOp, BlockId, CastOp, CompareOp, Const, Function, Global, InstKind, Module, Terminator,
    Type, UnaryOp, ValueId, ValueKind,
};
use ssa_passes::loops::{analyze_i32_induction, LoopInfo};
use ssa_passes::pass::loop_division_specialize::LoopDivisionSpecializePass;
use ssa_passes::pass::loop_memcpy::LoopMemcpyPass;
use ssa_passes::pass::loop_memory_promotion::LoopMemoryPromotionPass;
use ssa_passes::pass::loop_memset::LoopMemsetPass;
use ssa_passes::pass::modular_recurrence::{find_plan, ModularRecurrencePass};
use ssa_passes::pass::odd_chain_group::helper::{build_grouped_helper, cache_type};
use ssa_passes::pass::odd_chain_group::recognize::RecurrenceKind;
use ssa_passes::pass::odd_chain_group::OddChainGroupPass;
use ssa_passes::pass::periodic_reduction_memoize::PeriodicReductionMemoizePass;
use ssa_passes::pass::pipeline::{run_stages, Stage};
use ssa_passes::pass::piecewise_expr::{match_piecewise_expr, PiecewiseExprPass, ScaleKind};
use ssa_passes::pass::pointer_recurrence_coalesce::PointerRecurrenceCoalescePass;
use ssa_passes::pass::producer_consumer_fusion::ProducerConsumerFusionPass;
use ssa_passes::pass::range_integer::RangeIntegerSimplifyPass;
use ssa_passes::pass::recurrence_update_sink::RecurrenceUpdateSinkPass;
use ssa_passes::pass::recursive_inline::RecursiveInlinePass;
use ssa_passes::pass::recursive_memoize::RecursiveMemoizePass;
use ssa_passes::pass::reduction_jam::ReductionJamPass;
use ssa_passes::pass::regional_global_scalar::{
    RegionalGlobalScalarPass, RegionalInvariantGlobalLoadPass,
};
use ssa_passes::pass::repeat_reduction::{
    collapse_repeated_reductions, match_reduction, RepeatReductionPass,
};
use ssa_passes::pass::repeated_overwrite::RepeatedOverwritePass;
use ssa_passes::pass::scalar_promote::promote_function;
use ssa_passes::pass::simple_loop_unroll::SimpleLoopUnrollPass;
use ssa_passes::pass::simplify_cfg::SimplifyCfgPass;
use ssa_passes::pass::{run_pipeline, OptLevel, PassOptions};
use ssa_passes::patterns::collect_phi_results;
use ssa_passes::util::const_i32;

// ---------------------------------------------------------------------------
// Building
// ---------------------------------------------------------------------------

fn append(func: &mut Function, block: BlockId, kind: InstKind, ty: Type) -> ValueId {
    func.append_inst(block, kind, Some(ty)).unwrap()
}

fn effect(func: &mut Function, block: BlockId, kind: InstKind) {
    func.append_inst(block, kind, None);
}

fn integer(func: &mut Function, i: i32) -> ValueId {
    func.add_const(Const::Int(i))
}

fn float(func: &mut Function, x: f32) -> ValueId {
    func.add_const(Const::Float(x.to_bits()))
}

fn binary(func: &mut Function, block: BlockId, op: BinaryOp, lhs: ValueId, rhs: ValueId) -> ValueId {
    let ty = match op {
        BinaryOp::Fadd | BinaryOp::Fsub | BinaryOp::Fmul | BinaryOp::Fdiv => Type::F32,
        BinaryOp::And | BinaryOp::Or => Type::I1,
        _ => Type::I32,
    };
    append(func, block, InstKind::Binary { op, lhs, rhs }, ty)
}

fn compare(func: &mut Function, block: BlockId, op: CompareOp, lhs: ValueId, rhs: ValueId) -> ValueId {
    append(func, block, InstKind::ICompare { op, lhs, rhs }, Type::I1)
}

fn pointer(ty: Type) -> Type {
    Type::Ptr(Box::new(ty))
}

fn array(elem: Type, len: usize) -> Type {
    Type::Array { elem: Box::new(elem), len }
}

fn gep(func: &mut Function, block: BlockId, base: ValueId, indices: Vec<ValueId>, ty: Type) -> ValueId {
    append(func, block, InstKind::Gep { base, indices }, pointer(ty))
}

fn load(func: &mut Function, block: BlockId, ptr: ValueId, ty: Type) -> ValueId {
    append(func, block, InstKind::Load { ptr }, ty)
}

fn store(func: &mut Function, block: BlockId, ptr: ValueId, value: ValueId) {
    effect(func, block, InstKind::Store { ptr, value });
}

fn branch(func: &mut Function, block: BlockId, cond: ValueId, t: BlockId, e: BlockId) {
    func.set_terminator(block, Terminator::Branch { cond, then_target: t, else_target: e });
}

fn jump(func: &mut Function, block: BlockId, target: BlockId) {
    func.set_terminator(block, Terminator::Jump(target));
}

fn ret(func: &mut Function, block: BlockId, value: ValueId) {
    func.set_terminator(block, Terminator::Return(Some(value)));
}

fn phi(func: &mut Function, block: BlockId, incomings: Vec<(BlockId, ValueId)>, ty: Type) -> ValueId {
    append(func, block, InstKind::Phi { incomings }, ty)
}

fn add_entry(func: &mut Function, value: ValueId, pred: BlockId, taken: ValueId) {
    let ValueKind::Inst(block, index) = func.values[value.0].kind else {
        panic!("a phi must be an instruction");
    };
    let InstKind::Phi { incomings } = &mut func.blocks[block.0].insts[index].kind else {
        panic!("the value must be a phi");
    };
    incomings.push((pred, taken));
}

struct Loop {
    header: BlockId,
    body: BlockId,
    exit: BlockId,
    phis: Vec<ValueId>,
}

/// A loop whose phis start at the given values.
fn open_loop(func: &mut Function, from: BlockId, inits: &[(ValueId, Type)]) -> Loop {
    let header = func.add_block("header");
    let body = func.add_block("body");
    let exit = func.add_block("exit");
    jump(func, from, header);
    let phis = inits
        .iter()
        .map(|(value, ty)| phi(func, header, vec![(from, *value)], ty.clone()))
        .collect();
    Loop { header, body, exit, phis }
}

fn test_loop(func: &mut Function, l: &Loop, op: CompareOp, lhs: ValueId, rhs: ValueId) {
    let cond = compare(func, l.header, op, lhs, rhs);
    branch(func, l.header, cond, l.body, l.exit);
}

fn close_loop(func: &mut Function, l: &Loop, latch: BlockId, nexts: &[ValueId]) {
    jump(func, latch, l.header);
    for (value, next) in l.phis.iter().zip(nexts) {
        add_entry(func, *value, latch, *next);
    }
}

fn global(name: &str, ty: Type) -> Global {
    Global { name: name.to_string(), ty: ty.clone(), is_const: false, init: Some(Const::Zero(ty)) }
}

fn module_of(globals: Vec<Global>, funcs: Vec<Function>) -> Module {
    for func in &funcs {
        assert!(func.verify().is_ok(), "{} is not valid", func.name);
    }
    Module { globals, funcs }
}

fn insts(func: &Function) -> Vec<&InstKind> {
    func.blocks.iter().flat_map(|block| &block.insts).map(|inst| &inst.kind).collect()
}

fn has_block(func: &Function, name: &str) -> bool {
    func.blocks.iter().any(|block| block.name == name)
}

fn all_valid(module: &Module) -> bool {
    module.funcs.iter().all(|func| func.verify().is_ok())
}

// ---------------------------------------------------------------------------
// Running
// ---------------------------------------------------------------------------

#[derive(Clone, Copy, Debug, PartialEq)]
enum Datum {
    Zero,
    Unit,
    Bool(bool),
    Int(i32),
    Float(f32),
    Address(usize, i64),
}

impl Datum {
    fn as_int(self) -> i32 {
        match self {
            Datum::Int(i) => i,
            Datum::Zero => 0,
            Datum::Bool(b) => b as i32,
            _ => panic!("{self:?} is no integer"),
        }
    }

    fn as_float(self) -> f32 {
        match self {
            Datum::Float(x) => x,
            Datum::Zero => 0.0,
            _ => panic!("{self:?} is no float"),
        }
    }

    fn as_bool(self) -> bool {
        match self {
            Datum::Bool(b) => b,
            Datum::Zero => false,
            _ => panic!("{self:?} is no truth value"),
        }
    }
}

fn cells(ty: &Type) -> i64 {
    match ty {
        Type::Array { elem, len } => cells(elem) * *len as i64,
        _ => 1,
    }
}

struct Machine<'a> {
    module: &'a Module,
    memory: Vec<Vec<Datum>>,
    input: Vec<i32>,
    output: Vec<i32>,
    steps: usize,
}

impl<'a> Machine<'a> {
    fn new(module: &'a Module, input: Vec<i32>) -> Self {
        let memory = module
            .globals
            .iter()
            .map(|global| vec![Datum::Zero; cells(&global.ty) as usize])
            .collect();
        Machine { module, memory, input, output: Vec::new(), steps: 0 }
    }

    fn read(&self, name: &str, at: usize) -> Datum {
        let object = self.module.globals.iter().position(|global| global.name == name).unwrap();
        self.memory[object][at]
    }

    fn write(&mut self, name: &str, at: usize, value: Datum) {
        let object = self.module.globals.iter().position(|global| global.name == name).unwrap();
        self.memory[object][at] = value;
    }

    fn call(&mut self, name: &str, args: &[Datum]) -> Datum {
        match name {
            "getint" => return Datum::Int(self.input.remove(0)),
            "putint" => {
                self.output.push(args[0].as_int());
                return Datum::Unit;
            }
            _ => {}
        }
        let func = self.module.funcs.iter().find(|func| func.name == name).unwrap();
        let mut values = vec![Datum::Unit; func.values.len()];
        for (param, arg) in func.params.iter().zip(args) {
            values[param.0] = *arg;
        }
        for (at, value) in func.values.iter().enumerate() {
            match &value.kind {
                ValueKind::Const(Const::Bool(b)) => values[at] = Datum::Bool(*b),
                ValueKind::Const(Const::Int(i)) => values[at] = Datum::Int(*i),
                ValueKind::Const(Const::Float(bits)) => {
                    values[at] = Datum::Float(f32::from_bits(*bits))
                }
                ValueKind::Const(Const::Zero(_)) => values[at] = Datum::Zero,
                ValueKind::Global(name) => {
                    let object =
                        self.module.globals.iter().position(|global| &global.name == name);
                    values[at] = Datum::Address(object.unwrap(), 0);
                }
                _ => {}
            }
        }
        let mut pred = func.entry;
        let mut current = func.entry;
        loop {
            self.steps += 1;
            assert!(self.steps < 1_000_000, "the program does not end");
            let block = &func.blocks[current.0];
            let before = values.clone();
            for inst in &block.insts {
                if let InstKind::Phi { incomings } = &inst.kind {
                    let (_, taken) = incomings.iter().find(|(from, _)| *from == pred).unwrap();
                    values[inst.result.unwrap().0] = before[taken.0];
                }
            }
            for inst in &block.insts {
                if matches!(inst.kind, InstKind::Nop | InstKind::Phi { .. }) {
                    continue;
                }
                let result = self.step(func, &values, inst.result, &inst.kind);
                if let Some(v) = inst.result {
                    values[v.0] = result;
                }
            }
            let next = match block.terminator.as_ref().unwrap() {
                Terminator::Return(None) => return Datum::Unit,
                Terminator::Return(Some(v)) => return values[v.0],
                Terminator::Jump(target) => *target,
                Terminator::Branch { cond, then_target, else_target } => {
                    if values[cond.0].as_bool() {
                        *then_target
                    } else {
                        *else_target
                    }
                }
            };
            pred = current;
            current = next;
        }
    }

    fn step(
        &mut self,
        func: &Function,
        values: &[Datum],
        result: Option<ValueId>,
        kind: &InstKind,
    ) -> Datum {
        match kind {
            InstKind::Alloca { ty } => {
                self.memory.push(vec![Datum::Zero; cells(ty) as usize]);
                Datum::Address(self.memory.len() - 1, 0)
            }
            InstKind::Load { ptr } => {
                let Datum::Address(object, at) = values[ptr.0] else { panic!("no address") };
                let datum = self.memory[object][at as usize];
                match func.values[result.unwrap().0].ty {
                    Type::I32 => Datum::Int(datum.as_int()),
                    Type::F32 => Datum::Float(datum.as_float()),
                    _ => datum,
                }
            }
            InstKind::Store { ptr, value } => {
                let Datum::Address(object, at) = values[ptr.0] else { panic!("no address") };
                self.memory[object][at as usize] = values[value.0];
                Datum::Unit
            }
            InstKind::MemZero { ptr, bytes, count } => {
                let Datum::Address(object, at) = values[ptr.0] else { panic!("no address") };
                let n = count.map_or(1, |count| values[count.0].as_int()) as i64 * *bytes as i64 / 4;
                for k in 0..n {
                    self.memory[object][(at + k) as usize] = Datum::Zero;
                }
                Datum::Unit
            }
            InstKind::MemCopy { dst, src, element_bytes, count } => {
                let Datum::Address(to, to_at) = values[dst.0] else { panic!("no address") };
                let Datum::Address(from, from_at) = values[src.0] else { panic!("no address") };
                let n = values[count.0].as_int() as i64 * *element_bytes as i64 / 4;
                for k in 0..n {
                    self.memory[to][(to_at + k) as usize] =
                        self.memory[from][(from_at + k) as usize];
                }
                Datum::Unit
            }
            InstKind::Unary { op, value } => match op {
                UnaryOp::Ineg => Datum::Int(values[value.0].as_int().wrapping_neg()),
                UnaryOp::Fneg => Datum::Float(-values[value.0].as_float()),
                UnaryOp::Not => Datum::Bool(!values[value.0].as_bool()),
            },
            InstKind::Binary { op, lhs, rhs } => operate(*op, values[lhs.0], values[rhs.0]),
            InstKind::ICompare { op, lhs, rhs } => {
                let (a, b) = (values[lhs.0].as_int(), values[rhs.0].as_int());
                Datum::Bool(match op {
                    CompareOp::Eq => a == b,
                    CompareOp::Ne => a != b,
                    CompareOp::Lt => a < b,
                    CompareOp::Le => a <= b,
                    CompareOp::Gt => a > b,
                    CompareOp::Ge => a >= b,
                })
            }
            InstKind::FCompare { op, lhs, rhs } => {
                let (a, b) = (values[lhs.0].as_float(), values[rhs.0].as_float());
                Datum::Bool(match op {
                    CompareOp::Eq => a == b,
                    CompareOp::Ne => a != b,
                    CompareOp::Lt => a < b,
                    CompareOp::Le => a <= b,
                    CompareOp::Gt => a > b,
                    CompareOp::Ge => a >= b,
                })
            }
            InstKind::Cast { op, value } => match op {
                CastOp::BoolToI32 => Datum::Int(values[value.0].as_bool() as i32),
                CastOp::I32ToBool => Datum::Bool(values[value.0].as_int() != 0),
                CastOp::I32ToF32 => Datum::Float(values[value.0].as_int() as f32),
                CastOp::F32ToI32 => Datum::Int(values[value.0].as_float() as i32),
                CastOp::F32ToBool => Datum::Bool(values[value.0].as_float() != 0.0),
            },
            InstKind::Gep { base, indices } => {
                let Datum::Address(object, at) = values[base.0] else { panic!("no address") };
                let Type::Ptr(pointee) = &func.values[base.0].ty else { panic!("no pointer") };
                let Type::Ptr(wanted) = &func.values[result.unwrap().0].ty else {
                    panic!("no pointer");
                };
                let index = |k: usize| values[indices[k].0].as_int() as i64;
                let mut ty: &Type = pointee;
                let mut offset = at;
                let mut inside = true;
                for k in 0..indices.len() {
                    match ty {
                        Type::Array { elem, .. } => {
                            ty = elem;
                            offset += index(k) * cells(ty);
                        }
                        _ => inside = false,
                    }
                }
                if !inside || ty != &**wanted {
                    ty = pointee;
                    offset = at + index(0) * cells(ty);
                    for k in 1..indices.len() {
                        let Type::Array { elem, .. } = ty else { panic!("too many indices") };
                        ty = elem;
                        offset += index(k) * cells(ty);
                    }
                }
                Datum::Address(object, offset)
            }
            InstKind::Call { name, args } => {
                let args: Vec<Datum> = args.iter().map(|arg| values[arg.0]).collect();
                self.call(name, &args)
            }
            InstKind::Nop | InstKind::Phi { .. } => Datum::Unit,
        }
    }
}

fn operate(op: BinaryOp, lhs: Datum, rhs: Datum) -> Datum {
    match op {
        BinaryOp::Iadd => Datum::Int(lhs.as_int().wrapping_add(rhs.as_int())),
        BinaryOp::Isub => Datum::Int(lhs.as_int().wrapping_sub(rhs.as_int())),
        BinaryOp::Imul => Datum::Int(lhs.as_int().wrapping_mul(rhs.as_int())),
        BinaryOp::Idiv => Datum::Int(lhs.as_int().wrapping_div(rhs.as_int())),
        BinaryOp::Imod => Datum::Int(lhs.as_int().wrapping_rem(rhs.as_int())),
        BinaryOp::Iand => Datum::Int(lhs.as_int() & rhs.as_int()),
        BinaryOp::Ior => Datum::Int(lhs.as_int() | rhs.as_int()),
        BinaryOp::Ixor => Datum::Int(lhs.as_int() ^ rhs.as_int()),
        BinaryOp::Ishl => Datum::Int(lhs.as_int().wrapping_shl(rhs.as_int() as u32)),
        BinaryOp::Iashr => Datum::Int(lhs.as_int().wrapping_shr(rhs.as_int() as u32)),
        BinaryOp::And => Datum::Bool(lhs.as_bool() && rhs.as_bool()),
        BinaryOp::Or => Datum::Bool(lhs.as_bool() || rhs.as_bool()),
        BinaryOp::Fadd => Datum::Float(lhs.as_float() + rhs.as_float()),
        BinaryOp::Fsub => Datum::Float(lhs.as_float() - rhs.as_float()),
        BinaryOp::Fmul => Datum::Float(lhs.as_float() * rhs.as_float()),
        BinaryOp::Fdiv => Datum::Float(lhs.as_float() / rhs.as_float()),
    }
}

fn run_int(module: &Module, name: &str, args: &[i32]) -> i32 {
    let args: Vec<Datum> = args.iter().map(|arg| Datum::Int(*arg)).collect();
    Machine::new(module, Vec::new()).call(name, &args).as_int()
}

/// The first `n` integers that a global holds after a call.
fn array_after(module: &Module, name: &str, args: &[i32], array: &str, n: usize) -> Vec<i32> {
    let args: Vec<Datum> = args.iter().map(|arg| Datum::Int(*arg)).collect();
    let mut machine = Machine::new(module, Vec::new());
    for k in 0..n {
        machine.write(array, k, Datum::Int(100 + k as i32));
    }
    machine.call(name, &args);
    (0..n).map(|k| machine.read(array, k).as_int()).collect()
}

// ---------------------------------------------------------------------------
// Divisions, recurrences and reductions
// ---------------------------------------------------------------------------

/// void fill_divided(int n, int divisor): values[i] = i / divisor.
fn fill_divided() -> Module {
    let mut func = Function::new("fill_divided", Type::Void);
    let n = func.add_param("n", Type::I32);
    let divisor = func.add_param("divisor", Type::I32);
    let values = func.add_global_ref("values", pointer(array(Type::I32, 128)));
    let zero = integer(&mut func, 0);
    let one = integer(&mut func, 1);
    let entry = func.entry;
    let l = open_loop(&mut func, entry, &[(zero, Type::I32)]);
    let i = l.phis[0];
    test_loop(&mut func, &l, CompareOp::Lt, i, n);
    let quotient = binary(&mut func, l.body, BinaryOp::Idiv, i, divisor);
    let slot = gep(&mut func, l.body, values, vec![zero, i], Type::I32);
    store(&mut func, l.body, slot, quotient);
    let next = binary(&mut func, l.body, BinaryOp::Iadd, i, one);
    close_loop(&mut func, &l, l.body, &[next]);
    func.set_terminator(l.exit, Terminator::Return(None));
    module_of(vec![global("values", array(Type::I32, 128))], vec![func])
}

#[test]
fn versions_an_invariant_division_without_removing_the_fallback() {
    let mut module = fill_divided();
    let before = module.clone();
    LoopDivisionSpecializePass::new().run(&mut module);
    let func = &module.funcs[0];
    assert!(func
        .blocks
        .iter()
        .any(|block| block.name == "div.specialized"));
    assert!(func
        .blocks
        .iter()
        .flat_map(|block| &block.insts)
        .any(|inst| {
            matches!(
                inst.kind,
                InstKind::Binary {
                    op: BinaryOp::Idiv,
                    rhs,
                    ..
                } if matches!(func.value(rhs).kind, ValueKind::Const(Const::Int(3)))
            )
        }));
    assert!(func.verify().is_ok());
    for divisor in [3, 5, -3] {
        assert_eq!(
            array_after(&module, "fill_divided", &[10, divisor], "values", 12),
            array_after(&before, "fill_divided", &[10, divisor], "values", 12)
        );
    }
    assert_eq!(
        array_after(&module, "fill_divided", &[8, 3], "values", 9),
        vec![0, 0, 0, 1, 1, 1, 2, 2, 108]
    );
}

/// The state moves by a step for `state % 8` rounds, modulo 97.
fn modular(op: BinaryOp, again: bool) -> Module {
    let mut func = Function::new("advance", Type::I32);
    let state = func.add_param("state", Type::I32);
    let zero = integer(&mut func, 0);
    let one = integer(&mut func, 1);
    let three = integer(&mut func, 3);
    let eight = integer(&mut func, 8);
    let modulus = integer(&mut func, 97);
    let entry = func.entry;
    let count = binary(&mut func, entry, BinaryOp::Imod, state, eight);
    let l = open_loop(&mut func, entry, &[(zero, Type::I32), (state, Type::I32)]);
    test_loop(&mut func, &l, CompareOp::Lt, l.phis[0], count);
    let moved = binary(&mut func, l.body, op, l.phis[1], three);
    let reduced = binary(&mut func, l.body, BinaryOp::Imod, moved, modulus);
    let next = binary(&mut func, l.body, BinaryOp::Iadd, l.phis[0], one);
    close_loop(&mut func, &l, l.body, &[next, reduced]);
    let result = if again {
        binary(&mut func, l.exit, BinaryOp::Imod, l.phis[1], modulus)
    } else {
        l.phis[1]
    };
    ret(&mut func, l.exit, result);
    module_of(Vec::new(), vec![func])
}

#[test]
fn adds_a_guarded_fast_path_for_a_positive_modular_recurrence() {
    let mut module = modular(BinaryOp::Iadd, true);
    let before = module.clone();
    assert!(find_plan(&module.funcs[0]).is_some());

    ModularRecurrencePass::new().run(&mut module);
    let func = &module.funcs[0];
    assert!(func
        .blocks
        .iter()
        .any(|block| block.name == "modular.recurrence.fast"));
    assert!(func.blocks.iter().any(|block| {
        block.insts.iter().any(|inst| {
            matches!(
                inst.kind,
                InstKind::Binary {
                    op: BinaryOp::Imod,
                    ..
                }
            )
        })
    }));
    for state in [-20, 0, 1, 7, 95, 96, 97, 103, 1000] {
        assert_eq!(run_int(&module, "advance", &[state]), run_int(&before, "advance", &[state]));
    }
    assert_eq!(run_int(&module, "advance", &[95]), (95 + 7 * 3) % 97);
}

#[test]
fn rejects_a_recurrence_that_can_move_below_zero() {
    let module = modular(BinaryOp::Isub, false);
    assert!(find_plan(&module.funcs[0]).is_none());
}

#[test]
fn accepts_unique_conditional_entering_predecessor_without_preheader() {
    let mut func = Function::new("conditional_reduction_entry", Type::Void);
    let header = func.add_block("header");
    let latch = func.add_block("latch");
    let exit = func.add_block("exit");
    let enter = func.add_const(Const::Bool(true));
    let zero = func.add_const(Const::Int(0));
    let one = func.add_const(Const::Int(1));
    let bound = func.add_const(Const::Int(100));
    func.set_terminator(
        func.entry,
        Terminator::Branch {
            cond: enter,
            then_target: header,
            else_target: exit,
        },
    );
    let counter = func
        .append_inst(
            header,
            InstKind::Phi {
                incomings: vec![(func.entry, zero)],
            },
            Some(Type::I32),
        )
        .unwrap();
    let accumulator = func
        .append_inst(
            header,
            InstKind::Phi {
                incomings: vec![(func.entry, zero)],
            },
            Some(Type::I32),
        )
        .unwrap();
    let condition = func
        .append_inst(
            header,
            InstKind::ICompare {
                op: CompareOp::Lt,
                lhs: counter,
                rhs: bound,
            },
            Some(Type::I1),
        )
        .unwrap();
    func.set_terminator(
        header,
        Terminator::Branch {
            cond: condition,
            then_target: latch,
            else_target: exit,
        },
    );
    let accumulator_next = func
        .append_inst(
            latch,
            InstKind::Binary {
                op: BinaryOp::Iadd,
                lhs: accumulator,
                rhs: one,
            },
            Some(Type::I32),
        )
        .unwrap();
    let counter_next = func
        .append_inst(
            latch,
            InstKind::Binary {
                op: BinaryOp::Iadd,
                lhs: counter,
                rhs: one,
            },
            Some(Type::I32),
        )
        .unwrap();
    func.set_terminator(latch, Terminator::Jump(header));
    func.set_terminator(exit, Terminator::Return(None));
    for (inst_idx, incoming) in [(0, counter_next), (1, accumulator_next)] {
        let InstKind::Phi { incomings } = &mut func.blocks[header.0].insts[inst_idx].kind
        else {
            unreachable!();
        };
        incomings.push((latch, incoming));
    }
    assert!(func.verify().is_ok());

    let cfg = ControlFlowGraph::new(&func);
    let dom = Dominators::new(&func, &cfg);
    let loops = LoopInfo::new(&func, &cfg, &dom);
    let natural_loop = &loops.loops()[0];
    assert_eq!(natural_loop.unique_entering_pred, Some(func.entry));
    assert_eq!(natural_loop.dedicated_preheader, None);
    assert!(match_reduction(&func, &cfg, natural_loop).is_some());

    collapse_repeated_reductions(&mut func);
    assert!(func.verify().is_ok());
}

#[test]
fn a_repeated_sum_is_the_same_without_its_loop() {
    let mut func = Function::new("repeat", Type::I32);
    let x = func.add_param("x", Type::I32);
    let zero = integer(&mut func, 0);
    let one = integer(&mut func, 1);
    let bound = integer(&mut func, 100);
    let entry = func.entry;
    let l = open_loop(&mut func, entry, &[(zero, Type::I32), (x, Type::I32)]);
    test_loop(&mut func, &l, CompareOp::Lt, l.phis[0], bound);
    let sum = binary(&mut func, l.body, BinaryOp::Iadd, l.phis[1], x);
    let next = binary(&mut func, l.body, BinaryOp::Iadd, l.phis[0], one);
    close_loop(&mut func, &l, l.body, &[next, sum]);
    ret(&mut func, l.exit, l.phis[1]);
    let mut module = module_of(Vec::new(), vec![func]);
    let before = module.clone();
    RepeatReductionPass::new().run(&mut module);
    assert!(all_valid(&module));
    for x in [-3, 0, 7, i32::MAX] {
        assert_eq!(run_int(&module, "repeat", &[x]), run_int(&before, "repeat", &[x]));
    }
    assert_eq!(run_int(&module, "repeat", &[7]), 707);
}

#[test]
fn completes_promoted_phis_for_unreachable_predecessors() {
    let mut func = Function::new("dead_phi_pred", Type::I32);
    let left = func.add_block("left");
    let right = func.add_block("right");
    let merge = func.add_block("merge");
    let dead = func.add_block("dead");
    let condition = func.add_const(Const::Bool(true));
    let zero = func.add_const(Const::Int(0));
    let one = func.add_const(Const::Int(1));
    let two = func.add_const(Const::Int(2));
    let slot = func
        .append_inst(
            func.entry,
            InstKind::Alloca { ty: Type::I32 },
            Some(Type::Ptr(Box::new(Type::I32))),
        )
        .unwrap();
    func.append_inst(
        func.entry,
        InstKind::Store {
            ptr: slot,
            value: zero,
        },
        None,
    );
    func.set_terminator(
        func.entry,
        Terminator::Branch {
            cond: condition,
            then_target: left,
            else_target: right,
        },
    );
    func.append_inst(
        left,
        InstKind::Store {
            ptr: slot,
            value: one,
        },
        None,
    );
    func.set_terminator(left, Terminator::Jump(merge));
    func.append_inst(
        right,
        InstKind::Store {
            ptr: slot,
            value: two,
        },
        None,
    );
    func.set_terminator(right, Terminator::Jump(merge));
    func.set_terminator(dead, Terminator::Jump(merge));
    let loaded = func
        .append_inst(merge, InstKind::Load { ptr: slot }, Some(Type::I32))
        .unwrap();
    func.set_terminator(merge, Terminator::Return(Some(loaded)));
    assert!(func.verify().is_ok());

    promote_function(&mut func);

    assert!(func.verify().is_ok());
    let phi_incomings = func.blocks[merge.0]
        .insts
        .iter()
        .find_map(|inst| match &inst.kind {
            InstKind::Phi { incomings } => Some(incomings),
            _ => None,
        })
        .expect("promotion should insert a merge phi");
    assert!(phi_incomings.iter().any(|(pred, _)| *pred == dead));
}

// ---------------------------------------------------------------------------
// Odd chains
// ---------------------------------------------------------------------------

#[test]
fn grouped_helper_has_valid_ssa() {
    let helper = build_grouped_helper(
        "__odd_chain_grouped_test",
        1_000_000_007,
        "__odd_chain_cache_test",
        RecurrenceKind::ThreeThenFour,
    );
    assert!(helper.verify().is_ok(), "{:?}", helper.verify());

    let simple = build_grouped_helper(
        "__simple_odd_chain_grouped_test",
        1_000_000_007,
        "__simple_odd_chain_cache_test",
        RecurrenceKind::ThreeOnly,
    );
    assert!(simple.verify().is_ok(), "{:?}", simple.verify());
}

/// What a number adds to the sum over all chains up to the limit.
fn chain_value(number: i32, limit: i32, kind: RecurrenceKind) -> i32 {
    let mut state = number;
    let mut steps = 0;
    while state != 1 {
        if state % 2 == 0 {
            state /= 2;
        } else if 3 * state + 1 <= limit {
            state = 3 * state + 1;
        } else if kind == RecurrenceKind::ThreeThenFour && 4 * state + 1 <= limit {
            state = 4 * state + 1;
        } else {
            return kind.failure_value();
        }
        steps += 1;
    }
    steps
}

#[test]
fn the_grouped_helper_sums_all_chains() {
    for kind in [RecurrenceKind::ThreeOnly, RecurrenceKind::ThreeThenFour] {
        let helper = build_grouped_helper("grouped", 97, "chains", kind);
        let module = module_of(vec![global("chains", cache_type())], vec![helper]);
        let mut machine = Machine::new(&module, Vec::new());
        for limit in [30, 6, 100, 1, 0, -3, 45] {
            let want: i32 = (1..=limit).map(|number| chain_value(number, limit, kind)).sum();
            let got = machine.call("grouped", &[Datum::Int(limit)]).as_int();
            assert_eq!(got, want % 97, "limit {}", limit);
        }
    }
    let helper = build_grouped_helper("grouped", 1_000_000_007, "chains", RecurrenceKind::ThreeThenFour);
    let module = module_of(vec![global("chains", cache_type())], vec![helper]);
    let mut machine = Machine::new(&module, Vec::new());
    assert_eq!(machine.call("grouped", &[Datum::Int(6)]).as_int(), 24);
}

/// int wander(int state, int depth), as a loop; a failed chain returns `failure`.
fn wander(failure: i32) -> Function {
    let mut func = Function::new("wander", Type::I32);
    let start = func.add_param("state", Type::I32);
    func.add_param("depth", Type::I32);
    let boundary = func.add_global_ref("boundary", pointer(Type::I32));
    let zero = integer(&mut func, 0);
    let one = integer(&mut func, 1);
    let two = integer(&mut func, 2);
    let three = integer(&mut func, 3);
    let failed = integer(&mut func, failure);
    let header = func.add_block("header");
    let success = func.add_block("success");
    let parity = func.add_block("parity");
    let even = func.add_block("even");
    let odd = func.add_block("odd");
    let triple = func.add_block("triple");
    let failure = func.add_block("failure");
    let entry = func.entry;
    jump(&mut func, entry, header);
    let state = phi(&mut func, header, vec![(entry, start)], Type::I32);
    let depth = phi(&mut func, header, vec![(entry, zero)], Type::I32);
    let done = compare(&mut func, header, CompareOp::Eq, state, one);
    branch(&mut func, header, done, success, parity);
    ret(&mut func, success, depth);
    let rest = binary(&mut func, parity, BinaryOp::Imod, state, two);
    let is_even = compare(&mut func, parity, CompareOp::Eq, rest, zero);
    branch(&mut func, parity, is_even, even, odd);
    let half = binary(&mut func, even, BinaryOp::Idiv, state, two);
    let deeper = binary(&mut func, even, BinaryOp::Iadd, depth, one);
    jump(&mut func, even, header);
    add_entry(&mut func, state, even, half);
    add_entry(&mut func, depth, even, deeper);
    let tripled = binary(&mut func, odd, BinaryOp::Imul, state, three);
    let above = binary(&mut func, odd, BinaryOp::Iadd, tripled, one);
    let limit = load(&mut func, odd, boundary, Type::I32);
    let fits = compare(&mut func, odd, CompareOp::Le, above, limit);
    branch(&mut func, odd, fits, triple, failure);
    let tripled = binary(&mut func, triple, BinaryOp::Imul, state, three);
    let above = binary(&mut func, triple, BinaryOp::Iadd, tripled, one);
    let deeper = binary(&mut func, triple, BinaryOp::Iadd, depth, one);
    jump(&mut func, triple, header);
    add_entry(&mut func, state, triple, above);
    add_entry(&mut func, depth, triple, deeper);
    ret(&mut func, failure, failed);
    func
}

fn odd_chains(failure: i32) -> Module {
    let mut func = Function::new("main", Type::I32);
    let boundary = func.add_global_ref("boundary", pointer(Type::I32));
    let zero = integer(&mut func, 0);
    let one = integer(&mut func, 1);
    let modulus = integer(&mut func, 1_000_000_007);
    let result = integer(&mut func, failure);
    let entry = func.entry;
    let read = append(
        &mut func,
        entry,
        InstKind::Call { name: "getint".to_string(), args: Vec::new() },
        Type::I32,
    );
    store(&mut func, entry, boundary, read);
    let l = open_loop(&mut func, entry, &[(one, Type::I32), (zero, Type::I32)]);
    let limit = load(&mut func, l.header, boundary, Type::I32);
    test_loop(&mut func, &l, CompareOp::Le, l.phis[0], limit);
    let call = InstKind::Call { name: "wander".to_string(), args: vec![l.phis[0], zero] };
    let steps = append(&mut func, l.body, call, Type::I32);
    let sum = binary(&mut func, l.body, BinaryOp::Iadd, l.phis[1], steps);
    let reduced = binary(&mut func, l.body, BinaryOp::Imod, sum, modulus);
    let next = binary(&mut func, l.body, BinaryOp::Iadd, l.phis[0], one);
    close_loop(&mut func, &l, l.body, &[next, reduced]);
    effect(
        &mut func,
        l.exit,
        InstKind::Call { name: "putint".to_string(), args: vec![l.phis[1]] },
    );
    ret(&mut func, l.exit, result);
    module_of(vec![global("boundary", Type::I32)], vec![wander(failure), func])
}

#[test]
fn recognizes_a_bounded_three_only_chain_without_using_names() {
    let before = odd_chains(0);
    let mut optimized = before.clone();
    OddChainGroupPass::new().run(&mut optimized);
    assert!(optimized
        .funcs
        .iter()
        .any(|func| func.name.starts_with("__odd_chain_grouped_")));
    assert!(optimized
        .globals
        .iter()
        .any(|global| global.name.starts_with("__odd_chain_cache_")));
    assert!(all_valid(&optimized));
    for limit in [0, 1, 2, 7, 30, 100] {
        let mut plain = Machine::new(&before, vec![limit]);
        plain.call("main", &[]);
        let mut grouped = Machine::new(&optimized, vec![limit]);
        grouped.call("main", &[]);
        assert_eq!(plain.output, grouped.output);
    }

    let mut rejected = odd_chains(1);
    OddChainGroupPass::new().run(&mut rejected);
    assert!(!rejected
        .funcs
        .iter()
        .any(|func| func.name.starts_with("__odd_chain_grouped_")));
}

// ---------------------------------------------------------------------------
// Periodic reductions
// ---------------------------------------------------------------------------

fn periodic(initial_a: f32) -> Module {
    let mut func = Function::new("main", Type::I32);
    let zero = integer(&mut func, 0);
    let one = integer(&mut func, 1);
    let three = integer(&mut func, 3);
    let length = integer(&mut func, 4);
    let rounds = integer(&mut func, 20);
    let none = float(&mut func, 0.0);
    let unit = float(&mut func, 1.0);
    let step_a = float(&mut func, 0.1);
    let step_b = float(&mut func, 0.2);
    let first_a = if initial_a == 0.0 { none } else { float(&mut func, initial_a) };
    let entry = func.entry;
    let outer = open_loop(
        &mut func,
        entry,
        &[(zero, Type::I32), (first_a, Type::F32), (unit, Type::F32), (none, Type::F32)],
    );
    let (i, a, b, total) = (outer.phis[0], outer.phis[1], outer.phis[2], outer.phis[3]);
    test_loop(&mut func, &outer, CompareOp::Lt, i, rounds);
    let reset = func.add_block("reset");
    let update = func.add_block("update");
    let merge = func.add_block("merge");
    let rest = binary(&mut func, outer.body, BinaryOp::Imod, i, three);
    let resets = compare(&mut func, outer.body, CompareOp::Ne, rest, zero);
    branch(&mut func, outer.body, resets, reset, update);
    jump(&mut func, reset, merge);
    let more_a = binary(&mut func, update, BinaryOp::Fadd, a, step_a);
    let more_b = binary(&mut func, update, BinaryOp::Fadd, b, step_b);
    jump(&mut func, update, merge);
    let state_a = phi(&mut func, merge, vec![(reset, none), (update, more_a)], Type::F32);
    let state_b = phi(&mut func, merge, vec![(reset, unit), (update, more_b)], Type::F32);
    let inner = open_loop(&mut func, merge, &[(zero, Type::I32), (none, Type::F32)]);
    let (j, sum) = (inner.phis[0], inner.phis[1]);
    test_loop(&mut func, &inner, CompareOp::Lt, j, length);
    let at = append(
        &mut func,
        inner.body,
        InstKind::Cast { op: CastOp::I32ToF32, value: j },
        Type::F32,
    );
    let x = binary(&mut func, inner.body, BinaryOp::Fadd, state_a, at);
    let y = binary(&mut func, inner.body, BinaryOp::Fadd, state_b, at);
    let product = binary(&mut func, inner.body, BinaryOp::Fmul, x, y);
    let more = binary(&mut func, inner.body, BinaryOp::Fadd, sum, product);
    let next_j = binary(&mut func, inner.body, BinaryOp::Iadd, j, one);
    close_loop(&mut func, &inner, inner.body, &[next_j, more]);
    let all = binary(&mut func, inner.exit, BinaryOp::Fadd, total, sum);
    let next_i = binary(&mut func, inner.exit, BinaryOp::Iadd, i, one);
    close_loop(&mut func, &outer, inner.exit, &[next_i, state_a, state_b, all]);
    let whole = append(
        &mut func,
        outer.exit,
        InstKind::Cast { op: CastOp::F32ToI32, value: total },
        Type::I32,
    );
    ret(&mut func, outer.exit, whole);
    module_of(Vec::new(), vec![func])
}

#[test]
fn memoizes_only_a_proven_periodic_reset_reduction() {
    let mut optimized = periodic(0.0);
    PeriodicReductionMemoizePass::new().run(&mut optimized);
    let main = optimized
        .funcs
        .iter()
        .find(|func| func.name == "main")
        .unwrap();
    assert!(
        main.blocks
            .iter()
            .any(|block| block.name.starts_with("periodic.")),
        "blocks: {:?}",
        main.blocks
            .iter()
            .map(|block| &block.name)
            .collect::<Vec<_>>()
    );
    assert!(optimized.funcs.iter().all(|func| func.verify().is_ok()));
    assert_eq!(run_int(&optimized, "main", &[]), run_int(&periodic(0.0), "main", &[]));

    let mut rejected = periodic(2.0);
    PeriodicReductionMemoizePass::new().run(&mut rejected);
    let main = rejected
        .funcs
        .iter()
        .find(|func| func.name == "main")
        .unwrap();
    assert!(main
        .blocks
        .iter()
        .all(|block| !block.name.starts_with("periodic.")));
}

// ---------------------------------------------------------------------------
// Repeated overwrites
// ---------------------------------------------------------------------------

/// void update(int n, float left[][4], float right[][4]): right += left.
fn update() -> Function {
    let mut func = Function::new("update", Type::Void);
    let n = func.add_param("n", Type::I32);
    let left = func.add_param("left", pointer(array(Type::F32, 4)));
    let right = func.add_param("right", pointer(array(Type::F32, 4)));
    let zero = integer(&mut func, 0);
    let one = integer(&mut func, 1);
    let entry = func.entry;
    let columns = open_loop(&mut func, entry, &[(zero, Type::I32)]);
    let column = columns.phis[0];
    test_loop(&mut func, &columns, CompareOp::Lt, column, n);
    let rows = open_loop(&mut func, columns.body, &[(zero, Type::I32)]);
    let row = rows.phis[0];
    test_loop(&mut func, &rows, CompareOp::Lt, row, n);
    let to = gep(&mut func, rows.body, right, vec![row, column], Type::F32);
    let from = gep(&mut func, rows.body, left, vec![row, column], Type::F32);
    let old = load(&mut func, rows.body, to, Type::F32);
    let more = load(&mut func, rows.body, from, Type::F32);
    let sum = binary(&mut func, rows.body, BinaryOp::Fadd, old, more);
    store(&mut func, rows.body, to, sum);
    let next = binary(&mut func, rows.body, BinaryOp::Iadd, row, one);
    close_loop(&mut func, &rows, rows.body, &[next]);
    let next = binary(&mut func, rows.exit, BinaryOp::Iadd, column, one);
    close_loop(&mut func, &columns, rows.exit, &[next]);
    func.set_terminator(columns.exit, Terminator::Return(None));
    func
}

fn overwrites(complete: bool) -> Module {
    let square = array(array(Type::F32, 4), 4);
    let mut func = Function::new("main", Type::I32);
    let left = func.add_global_ref("left", pointer(square.clone()));
    let right = func.add_global_ref("right", pointer(square.clone()));
    let source = func.add_global_ref("source", pointer(square.clone()));
    let zero = integer(&mut func, 0);
    let one = integer(&mut func, 1);
    let three = integer(&mut func, 3);
    let entry = func.entry;
    let n = append(
        &mut func,
        entry,
        InstKind::Call { name: "getint".to_string(), args: Vec::new() },
        Type::I32,
    );
    let repeats = open_loop(&mut func, entry, &[(zero, Type::I32)]);
    test_loop(&mut func, &repeats, CompareOp::Lt, repeats.phis[0], three);
    let rows = open_loop(&mut func, repeats.body, &[(zero, Type::I32)]);
    let row = rows.phis[0];
    test_loop(&mut func, &rows, CompareOp::Lt, row, n);
    if complete {
        let columns = open_loop(&mut func, rows.body, &[(zero, Type::I32)]);
        let column = columns.phis[0];
        test_loop(&mut func, &columns, CompareOp::Lt, column, n);
        let from = gep(&mut func, columns.body, source, vec![row, column], Type::F32);
        let to = gep(&mut func, columns.body, right, vec![row, column], Type::F32);
        let copied = load(&mut func, columns.body, from, Type::F32);
        store(&mut func, columns.body, to, copied);
        let next = binary(&mut func, columns.body, BinaryOp::Iadd, column, one);
        close_loop(&mut func, &columns, columns.body, &[next]);
        let next = binary(&mut func, columns.exit, BinaryOp::Iadd, row, one);
        close_loop(&mut func, &rows, columns.exit, &[next]);
    } else {
        let from = gep(&mut func, rows.body, source, vec![row, zero], Type::F32);
        let to = gep(&mut func, rows.body, right, vec![row, zero], Type::F32);
        let copied = load(&mut func, rows.body, from, Type::F32);
        store(&mut func, rows.body, to, copied);
        let next = binary(&mut func, rows.body, BinaryOp::Iadd, row, one);
        close_loop(&mut func, &rows, rows.body, &[next]);
    }
    effect(
        &mut func,
        rows.exit,
        InstKind::Call { name: "update".to_string(), args: vec![n, left, right] },
    );
    let next = binary(&mut func, rows.exit, BinaryOp::Iadd, repeats.phis[0], one);
    close_loop(&mut func, &repeats, rows.exit, &[next]);
    let corner = gep(&mut func, repeats.exit, right, vec![zero, zero], Type::F32);
    let value = load(&mut func, repeats.exit, corner, Type::F32);
    let whole = append(
        &mut func,
        repeats.exit,
        InstKind::Cast { op: CastOp::F32ToI32, value },
        Type::I32,
    );
    ret(&mut func, repeats.exit, whole);
    module_of(
        vec![
            global("left", square.clone()),
            global("right", square.clone()),
            global("source", square),
        ],
        vec![update(), func],
    )
}

fn repeated_call_loop_initial(module: &Module, caller: &str, callee: &str) -> i32 {
    let func = module
        .funcs
        .iter()
        .find(|func| func.name == caller)
        .expect("caller must exist");
    let cfg = ControlFlowGraph::new(func);
    let dom = Dominators::new(func, &cfg);
    let loops = LoopInfo::new(func, &cfg, &dom);
    for natural_loop in loops.loops() {
        let contains_call = natural_loop.blocks.iter().any(|block| {
            func.blocks[block.0].insts.iter().any(|inst| {
                matches!(
                    &inst.kind,
                    InstKind::Call { name, .. } if name == callee
                )
            })
        });
        if !contains_call {
            continue;
        }
        for phi in collect_phi_results(func, natural_loop.header) {
            if let Some(induction) = analyze_i32_induction(func, natural_loop, phi) {
                if induction.step == 1 {
                    return const_i32(func, induction.initial)
                        .expect("repeat loop must have a constant initial value");
                }
            }
        }
    }
    panic!("repeat loop containing the call must exist in {func:#?}");
}

fn right_after_main(module: &Module) -> Vec<f32> {
    let mut machine = Machine::new(module, vec![4]);
    for k in 0..16 {
        machine.write("left", k, Datum::Float(k as f32));
        machine.write("source", k, Datum::Float(100.0 + k as f32));
    }
    machine.call("main", &[]);
    (0..16).map(|k| machine.read("right", k).as_float()).collect()
}

#[test]
fn keeps_only_the_last_complete_overwrite_iteration() {
    let before = overwrites(true);
    let mut module = before.clone();
    RepeatedOverwritePass::new().run(&mut module);

    assert_eq!(repeated_call_loop_initial(&module, "main", "update"), 2);
    assert!(module.funcs.iter().all(|func| func.verify().is_ok()));
    assert_eq!(right_after_main(&module), right_after_main(&before));
}

#[test]
fn rejects_a_partial_overwrite_before_the_call() {
    let mut module = overwrites(false);
    RepeatedOverwritePass::new().run(&mut module);

    assert_eq!(repeated_call_loop_initial(&module, "main", "update"), 0);
    assert!(module.funcs.iter().all(|func| func.verify().is_ok()));
}

// ---------------------------------------------------------------------------
// Loops over arrays
// ---------------------------------------------------------------------------

/// void clear(int n): values[0..n] = 0.
fn clearing(stored: i32) -> Module {
    let mut func = Function::new("clear", Type::Void);
    let n = func.add_param("n", Type::I32);
    let values = func.add_global_ref("values", pointer(array(Type::I32, 16)));
    let zero = integer(&mut func, 0);
    let one = integer(&mut func, 1);
    let stored = integer(&mut func, stored);
    let entry = func.entry;
    let base = gep(&mut func, entry, values, vec![zero, zero], Type::I32);
    let l = open_loop(&mut func, entry, &[(zero, Type::I32)]);
    test_loop(&mut func, &l, CompareOp::Lt, l.phis[0], n);
    let slot = gep(&mut func, l.body, base, vec![l.phis[0]], Type::I32);
    store(&mut func, l.body, slot, stored);
    let next = binary(&mut func, l.body, BinaryOp::Iadd, l.phis[0], one);
    close_loop(&mut func, &l, l.body, &[next]);
    func.set_terminator(l.exit, Terminator::Return(None));
    module_of(vec![global("values", array(Type::I32, 16))], vec![func])
}

#[test]
fn a_loop_of_zeros_becomes_a_zeroing() {
    let before = clearing(0);
    let mut module = before.clone();
    LoopMemsetPass::new().run(&mut module);
    assert!(all_valid(&module));
    assert!(insts(&module.funcs[0]).iter().any(|kind| matches!(kind, InstKind::MemZero { .. })));
    assert!(!insts(&module.funcs[0]).iter().any(|kind| matches!(kind, InstKind::Store { .. })));
    for n in [-1, 0, 1, 7] {
        assert_eq!(
            array_after(&module, "clear", &[n], "values", 8),
            array_after(&before, "clear", &[n], "values", 8)
        );
    }
    assert_eq!(array_after(&module, "clear", &[2], "values", 3), vec![0, 0, 102]);
}

#[test]
fn a_loop_of_ones_is_no_zeroing() {
    let before = clearing(1);
    let mut module = before.clone();
    LoopMemsetPass::new().run(&mut module);
    assert_eq!(module, before);
}

/// void copy(int n): the pointers walk from `source` to `values`.
fn copying() -> Module {
    let mut func = Function::new("copy", Type::Void);
    let n = func.add_param("n", Type::I32);
    let values = func.add_global_ref("values", pointer(array(Type::I32, 16)));
    let source = func.add_global_ref("source", pointer(array(Type::I32, 16)));
    let zero = integer(&mut func, 0);
    let one = integer(&mut func, 1);
    let entry = func.entry;
    let to = gep(&mut func, entry, values, vec![zero, zero], Type::I32);
    let from = gep(&mut func, entry, source, vec![zero, zero], Type::I32);
    let l = open_loop(
        &mut func,
        entry,
        &[(zero, Type::I32), (to, pointer(Type::I32)), (from, pointer(Type::I32))],
    );
    test_loop(&mut func, &l, CompareOp::Lt, l.phis[0], n);
    let value = load(&mut func, l.body, l.phis[2], Type::I32);
    store(&mut func, l.body, l.phis[1], value);
    let next_to = gep(&mut func, l.body, l.phis[1], vec![one], Type::I32);
    let next_from = gep(&mut func, l.body, l.phis[2], vec![one], Type::I32);
    let next = binary(&mut func, l.body, BinaryOp::Iadd, l.phis[0], one);
    close_loop(&mut func, &l, l.body, &[next, next_to, next_from]);
    func.set_terminator(l.exit, Terminator::Return(None));
    let ty = array(Type::I32, 16);
    module_of(vec![global("values", ty.clone()), global("source", ty)], vec![func])
}

fn copied(module: &Module, n: i32) -> Vec<i32> {
    let mut machine = Machine::new(module, Vec::new());
    for k in 0..8 {
        machine.write("source", k, Datum::Int(50 + k as i32));
    }
    machine.call("copy", &[Datum::Int(n)]);
    (0..8).map(|k| machine.read("values", k).as_int()).collect()
}

#[test]
fn a_loop_of_copies_becomes_a_copy() {
    let before = copying();
    let mut module = before.clone();
    LoopMemcpyPass::new().run(&mut module);
    assert!(all_valid(&module));
    assert!(insts(&module.funcs[0]).iter().any(|kind| matches!(kind, InstKind::MemCopy { .. })));
    for n in [-1, 0, 1, 7] {
        assert_eq!(copied(&module, n), copied(&before, n));
    }
    assert_eq!(copied(&module, 2), vec![50, 51, 0, 0, 0, 0, 0, 0]);
}

/// void fill(int n): values[i] = i * 3.
fn filling() -> Module {
    let mut func = Function::new("fill", Type::Void);
    let n = func.add_param("n", Type::I32);
    let values = func.add_global_ref("values", pointer(array(Type::I32, 16)));
    let zero = integer(&mut func, 0);
    let one = integer(&mut func, 1);
    let three = integer(&mut func, 3);
    let entry = func.entry;
    let l = open_loop(&mut func, entry, &[(zero, Type::I32)]);
    test_loop(&mut func, &l, CompareOp::Lt, l.phis[0], n);
    let product = binary(&mut func, l.body, BinaryOp::Imul, l.phis[0], three);
    let slot = gep(&mut func, l.body, values, vec![zero, l.phis[0]], Type::I32);
    store(&mut func, l.body, slot, product);
    let next = binary(&mut func, l.body, BinaryOp::Iadd, l.phis[0], one);
    close_loop(&mut func, &l, l.body, &[next]);
    func.set_terminator(l.exit, Terminator::Return(None));
    module_of(vec![global("values", array(Type::I32, 16))], vec![func])
}

#[test]
fn an_unrolled_loop_fills_the_same() {
    let before = filling();
    let mut module = before.clone();
    SimpleLoopUnrollPass::new().run(&mut module);
    assert!(all_valid(&module));
    assert!(module.funcs[0].blocks.len() > before.funcs[0].blocks.len());
    for n in [-1, 0, 1, 2, 3, 8] {
        assert_eq!(
            array_after(&module, "fill", &[n], "values", 10),
            array_after(&before, "fill", &[n], "values", 10)
        );
    }
    assert_eq!(array_after(&module, "fill", &[3], "values", 4), vec![0, 3, 6, 103]);
}

/// int sums(int n): out[i] is the sum of row i of the table.
fn row_sums() -> Module {
    let table_ty = array(array(Type::I32, 8), 8);
    let mut func = Function::new("sums", Type::Void);
    let n = func.add_param("n", Type::I32);
    let out = func.add_global_ref("out", pointer(array(Type::I32, 8)));
    let table = func.add_global_ref("table", pointer(table_ty.clone()));
    let zero = integer(&mut func, 0);
    let one = integer(&mut func, 1);
    let entry = func.entry;
    let first = gep(&mut func, entry, out, vec![zero, zero], Type::I32);
    let rows = open_loop(&mut func, entry, &[(zero, Type::I32)]);
    let row = rows.phis[0];
    test_loop(&mut func, &rows, CompareOp::Lt, row, n);
    let line = gep(&mut func, rows.body, table, vec![zero, row], array(Type::I32, 8));
    let columns = open_loop(&mut func, rows.body, &[(zero, Type::I32), (zero, Type::I32)]);
    let (column, sum) = (columns.phis[0], columns.phis[1]);
    test_loop(&mut func, &columns, CompareOp::Lt, column, n);
    let from = gep(&mut func, columns.body, line, vec![column], Type::I32);
    let value = load(&mut func, columns.body, from, Type::I32);
    let more = binary(&mut func, columns.body, BinaryOp::Iadd, sum, value);
    let next = binary(&mut func, columns.body, BinaryOp::Iadd, column, one);
    close_loop(&mut func, &columns, columns.body, &[next, more]);
    let to = gep(&mut func, columns.exit, first, vec![row], Type::I32);
    store(&mut func, columns.exit, to, sum);
    let next = binary(&mut func, columns.exit, BinaryOp::Iadd, row, one);
    close_loop(&mut func, &rows, columns.exit, &[next]);
    func.set_terminator(rows.exit, Terminator::Return(None));
    module_of(
        vec![global("out", array(Type::I32, 8)), global("table", table_ty)],
        vec![func],
    )
}

fn sums(module: &Module, n: i32) -> Vec<i32> {
    let mut machine = Machine::new(module, Vec::new());
    for k in 0..64 {
        machine.write("table", k, Datum::Int(k as i32 * 7 - 100));
    }
    machine.call("sums", &[Datum::Int(n)]);
    (0..8).map(|k| machine.read("out", k).as_int()).collect()
}

#[test]
fn jammed_reductions_sum_the_same() {
    for factor in [2, 4] {
        let before = row_sums();
        let mut module = before.clone();
        ReductionJamPass::new(factor).run(&mut module);
        assert!(all_valid(&module));
        assert!(module.funcs[0].has_reduction_jam());
        for n in 0..9 {
            assert_eq!(sums(&module, n), sums(&before, n));
        }
        let again = module.clone();
        ReductionJamPass::new(factor).run(&mut module);
        assert_eq!(module, again);
    }
}

/// int pairs(int n): two pointers walk over neighbours.
fn pairs() -> Module {
    let mut func = Function::new("pairs", Type::I32);
    let n = func.add_param("n", Type::I32);
    let values = func.add_global_ref("values", pointer(array(Type::I32, 32)));
    let zero = integer(&mut func, 0);
    let one = integer(&mut func, 1);
    let entry = func.entry;
    let p = gep(&mut func, entry, values, vec![zero, zero], Type::I32);
    let q = gep(&mut func, entry, values, vec![zero, one], Type::I32);
    let l = open_loop(
        &mut func,
        entry,
        &[
            (zero, Type::I32),
            (p, pointer(Type::I32)),
            (q, pointer(Type::I32)),
            (zero, Type::I32),
        ],
    );
    test_loop(&mut func, &l, CompareOp::Lt, l.phis[0], n);
    let x = load(&mut func, l.body, l.phis[1], Type::I32);
    let y = load(&mut func, l.body, l.phis[2], Type::I32);
    let product = binary(&mut func, l.body, BinaryOp::Imul, x, y);
    let sum = binary(&mut func, l.body, BinaryOp::Iadd, l.phis[3], product);
    let next_p = gep(&mut func, l.body, l.phis[1], vec![one], Type::I32);
    let next_q = gep(&mut func, l.body, l.phis[2], vec![one], Type::I32);
    let next = binary(&mut func, l.body, BinaryOp::Iadd, l.phis[0], one);
    close_loop(&mut func, &l, l.body, &[next, next_p, next_q, sum]);
    ret(&mut func, l.exit, l.phis[3]);
    module_of(vec![global("values", array(Type::I32, 32))], vec![func])
}

fn paired(module: &Module, name: &str, n: i32) -> i32 {
    let mut machine = Machine::new(module, Vec::new());
    for k in 0..32 {
        machine.write("values", k, Datum::Int(k as i32 - 5));
    }
    machine.call(name, &[Datum::Int(n)]).as_int()
}

#[test]
fn neighbouring_pointers_share_one_register() {
    let before = pairs();
    let mut module = before.clone();
    PointerRecurrenceCoalescePass::new().run(&mut module);
    assert!(all_valid(&module));
    for n in [0, 1, 5, 20] {
        assert_eq!(paired(&module, "pairs", n), paired(&before, "pairs", n));
    }
    assert_eq!(paired(&module, "pairs", 2), (-5) * (-4) + (-4) * (-3));
    let func = &module.funcs[0];
    let accessed: Vec<ValueId> = insts(func)
        .iter()
        .filter_map(|kind| match kind {
            InstKind::Load { ptr } => Some(*ptr),
            _ => None,
        })
        .collect();
    let ValueKind::Inst(block, index) = func.value(accessed[1]).kind else {
        panic!("the second pointer must be computed");
    };
    let InstKind::Gep { base, indices } = &func.blocks[block.0].insts[index].kind else {
        panic!("the second pointer must be computed from the first");
    };
    assert_eq!(*base, accessed[0]);
    assert_eq!(const_i32(func, indices[0]), Some(1));
}

/// int find(): walks until an element is zero, reading the next one.
fn walking() -> Module {
    let mut func = Function::new("walk", Type::I32);
    let limit = func.add_param("limit", Type::I32);
    let values = func.add_global_ref("values", pointer(array(Type::I32, 32)));
    let zero = integer(&mut func, 0);
    let one = integer(&mut func, 1);
    let entry = func.entry;
    let start = gep(&mut func, entry, values, vec![zero, zero], Type::I32);
    let l = open_loop(&mut func, entry, &[(start, pointer(Type::I32)), (zero, Type::I32)]);
    let next = gep(&mut func, l.header, l.phis[0], vec![one], Type::I32);
    let here = load(&mut func, l.header, l.phis[0], Type::I32);
    let there = load(&mut func, l.header, next, Type::I32);
    let both = binary(&mut func, l.header, BinaryOp::Iadd, here, there);
    let total = binary(&mut func, l.header, BinaryOp::Iadd, l.phis[1], both);
    test_loop(&mut func, &l, CompareOp::Lt, both, limit);
    close_loop(&mut func, &l, l.body, &[next, total]);
    ret(&mut func, l.exit, total);
    module_of(vec![global("values", array(Type::I32, 32))], vec![func])
}

#[test]
fn a_pointer_update_moves_to_the_back_edge() {
    let before = walking();
    let mut module = before.clone();
    RecurrenceUpdateSinkPass::new().run(&mut module);
    assert!(all_valid(&module));
    let func = &module.funcs[0];
    let body = func.blocks.iter().position(|block| block.name == "body").unwrap();
    assert!(func.blocks[body].insts.iter().any(|inst| matches!(inst.kind, InstKind::Gep { .. })));
    let header = func.blocks.iter().position(|block| block.name == "header").unwrap();
    let update = func.blocks[header]
        .insts
        .iter()
        .position(|inst| matches!(inst.kind, InstKind::Gep { .. }))
        .unwrap();
    let first_load = func.blocks[header]
        .insts
        .iter()
        .position(|inst| matches!(inst.kind, InstKind::Load { .. }))
        .unwrap();
    assert_eq!(update, first_load + 1);
    for limit in [-100, 0, 10, 30] {
        assert_eq!(paired(&module, "walk", limit), paired(&before, "walk", limit));
    }
}

// ---------------------------------------------------------------------------
// Globals and elements in registers
// ---------------------------------------------------------------------------

/// int add(int n): total += i, n times.
fn totals() -> Module {
    let mut func = Function::new("add", Type::I32);
    let n = func.add_param("n", Type::I32);
    let total = func.add_global_ref("total", pointer(Type::I32));
    let zero = integer(&mut func, 0);
    let one = integer(&mut func, 1);
    let entry = func.entry;
    let l = open_loop(&mut func, entry, &[(zero, Type::I32)]);
    test_loop(&mut func, &l, CompareOp::Lt, l.phis[0], n);
    let old = load(&mut func, l.body, total, Type::I32);
    let new = binary(&mut func, l.body, BinaryOp::Iadd, old, l.phis[0]);
    store(&mut func, l.body, total, new);
    let next = binary(&mut func, l.body, BinaryOp::Iadd, l.phis[0], one);
    close_loop(&mut func, &l, l.body, &[next]);
    let last = load(&mut func, l.exit, total, Type::I32);
    ret(&mut func, l.exit, last);
    module_of(vec![global("total", Type::I32)], vec![func])
}

#[test]
fn a_global_lives_in_a_slot_while_the_loop_runs() {
    let before = totals();
    let mut module = before.clone();
    RegionalGlobalScalarPass::new().run(&mut module);
    assert!(all_valid(&module));
    assert!(has_block(&module.funcs[0], "regional.total.flush"));
    for n in [-1, 0, 1, 10] {
        assert_eq!(run_int(&module, "add", &[n]), run_int(&before, "add", &[n]));
    }
    assert_eq!(run_int(&module, "add", &[10]), 45);
}

/// int twice(int n): adds a global twice a round.
fn twice() -> Module {
    let mut func = Function::new("twice", Type::I32);
    let n = func.add_param("n", Type::I32);
    let step = func.add_global_ref("step", pointer(Type::I32));
    let zero = integer(&mut func, 0);
    let one = integer(&mut func, 1);
    let entry = func.entry;
    let l = open_loop(&mut func, entry, &[(zero, Type::I32), (zero, Type::I32)]);
    test_loop(&mut func, &l, CompareOp::Lt, l.phis[0], n);
    let first = load(&mut func, l.body, step, Type::I32);
    let second = load(&mut func, l.body, step, Type::I32);
    let sum = binary(&mut func, l.body, BinaryOp::Iadd, l.phis[1], first);
    let sum = binary(&mut func, l.body, BinaryOp::Iadd, sum, second);
    let next = binary(&mut func, l.body, BinaryOp::Iadd, l.phis[0], one);
    close_loop(&mut func, &l, l.body, &[next, sum]);
    ret(&mut func, l.exit, l.phis[1]);
    module_of(vec![global("step", Type::I32)], vec![func])
}

#[test]
fn a_global_that_is_only_read_is_read_once() {
    let before = twice();
    let mut module = before.clone();
    RegionalInvariantGlobalLoadPass::new().run(&mut module);
    assert!(all_valid(&module));
    let loads = insts(&module.funcs[0])
        .iter()
        .filter(|kind| matches!(kind, InstKind::Load { .. }))
        .count();
    assert_eq!(loads, 1);
    for module in [&before, &module] {
        let mut machine = Machine::new(module, Vec::new());
        machine.write("step", 0, Datum::Int(6));
        assert_eq!(machine.call("twice", &[Datum::Int(5)]), Datum::Int(60));
    }
}

/// table[i][j] += table[i][k] for k below j.
fn prefix(forwarded: bool) -> Module {
    let table_ty = array(array(Type::I32, 8), 8);
    let mut func = Function::new("prefix", Type::I32);
    let i = func.add_param("i", Type::I32);
    let j = func.add_param("j", Type::I32);
    let table = func.add_global_ref("table", pointer(table_ty.clone()));
    let zero = integer(&mut func, 0);
    let one = integer(&mut func, 1);
    let five = integer(&mut func, 5);
    let entry = func.entry;
    let target = gep(&mut func, entry, table, vec![zero, i, j], Type::I32);
    if forwarded {
        store(&mut func, entry, target, five);
    }
    let l = open_loop(&mut func, entry, &[(zero, Type::I32)]);
    test_loop(&mut func, &l, CompareOp::Lt, l.phis[0], j);
    let other = gep(&mut func, l.body, table, vec![zero, i, l.phis[0]], Type::I32);
    let old = load(&mut func, l.body, target, Type::I32);
    let more = load(&mut func, l.body, other, Type::I32);
    let sum = binary(&mut func, l.body, BinaryOp::Iadd, old, more);
    store(&mut func, l.body, if forwarded { other } else { target }, sum);
    let next = binary(&mut func, l.body, BinaryOp::Iadd, l.phis[0], one);
    close_loop(&mut func, &l, l.body, &[next]);
    let last = load(&mut func, l.exit, target, Type::I32);
    ret(&mut func, l.exit, last);
    module_of(vec![global("table", table_ty)], vec![func])
}

fn prefix_table(module: &Module, i: i32, j: i32) -> Vec<i32> {
    let mut machine = Machine::new(module, Vec::new());
    for k in 0..64 {
        machine.write("table", k, Datum::Int(k as i32 * 3 - 20));
    }
    let last = machine.call("prefix", &[Datum::Int(i), Datum::Int(j)]).as_int();
    let mut table: Vec<i32> = (0..64).map(|k| machine.read("table", k).as_int()).collect();
    table.push(last);
    table
}

#[test]
fn an_element_lives_in_a_slot_while_the_loop_runs() {
    let before = prefix(false);
    let mut module = before.clone();
    LoopMemoryPromotionPass::new().run(&mut module);
    assert!(all_valid(&module));
    assert!(has_block(&module.funcs[0], "loop.memory.initialize"));
    assert!(has_block(&module.funcs[0], "loop.memory.flush"));
    for j in [-1, 0, 1, 5] {
        assert_eq!(prefix_table(&module, 2, j), prefix_table(&before, 2, j));
    }
}

#[test]
fn a_stored_value_serves_the_reads_of_the_loop() {
    let before = prefix(true);
    let mut module = before.clone();
    LoopMemoryPromotionPass::new().run(&mut module);
    assert!(all_valid(&module));
    let body = module.funcs[0].blocks.iter().find(|block| block.name == "body").unwrap();
    let loads =
        body.insts.iter().filter(|inst| matches!(inst.kind, InstKind::Load { .. })).count();
    assert_eq!(loads, 1);
    for j in [-1, 0, 1, 5] {
        assert_eq!(prefix_table(&module, 2, j), prefix_table(&before, 2, j));
    }
}

// ---------------------------------------------------------------------------
// Calls
// ---------------------------------------------------------------------------

/// float dot(float x[], float y[], int length).
fn dot() -> Function {
    let mut func = Function::new("dot", Type::F32);
    let x = func.add_param("x", pointer(Type::F32));
    let y = func.add_param("y", pointer(Type::F32));
    let length = func.add_param("length", Type::I32);
    let zero = integer(&mut func, 0);
    let one = integer(&mut func, 1);
    let none = float(&mut func, 0.0);
    let entry = func.entry;
    let l = open_loop(&mut func, entry, &[(zero, Type::I32), (none, Type::F32)]);
    test_loop(&mut func, &l, CompareOp::Lt, l.phis[0], length);
    let px = gep(&mut func, l.body, x, vec![l.phis[0]], Type::F32);
    let py = gep(&mut func, l.body, y, vec![l.phis[0]], Type::F32);
    let a = load(&mut func, l.body, px, Type::F32);
    let b = load(&mut func, l.body, py, Type::F32);
    let product = binary(&mut func, l.body, BinaryOp::Fmul, a, b);
    let sum = binary(&mut func, l.body, BinaryOp::Fadd, l.phis[1], product);
    let next = binary(&mut func, l.body, BinaryOp::Iadd, l.phis[0], one);
    close_loop(&mut func, &l, l.body, &[next, sum]);
    ret(&mut func, l.exit, l.phis[1]);
    func
}

fn producer(callee: Function) -> Module {
    let mut func = Function::new("produce", Type::F32);
    let length = func.add_param("length", Type::I32);
    let zero = integer(&mut func, 0);
    let one = integer(&mut func, 1);
    let half = float(&mut func, 0.5);
    let entry = func.entry;
    let local = array(Type::F32, 8);
    let x = append(&mut func, entry, InstKind::Alloca { ty: local.clone() }, pointer(local.clone()));
    let y = append(&mut func, entry, InstKind::Alloca { ty: local.clone() }, pointer(local));
    let l = open_loop(&mut func, entry, &[(zero, Type::I32)]);
    test_loop(&mut func, &l, CompareOp::Lt, l.phis[0], length);
    let at = append(
        &mut func,
        l.body,
        InstKind::Cast { op: CastOp::I32ToF32, value: l.phis[0] },
        Type::F32,
    );
    let more = binary(&mut func, l.body, BinaryOp::Fadd, at, half);
    let px = gep(&mut func, l.body, x, vec![l.phis[0]], Type::F32);
    store(&mut func, l.body, px, at);
    let py = gep(&mut func, l.body, y, vec![l.phis[0]], Type::F32);
    store(&mut func, l.body, py, more);
    let next = binary(&mut func, l.body, BinaryOp::Iadd, l.phis[0], one);
    close_loop(&mut func, &l, l.body, &[next]);
    let call = InstKind::Call { name: "dot".to_string(), args: vec![x, y, length] };
    let result = append(&mut func, l.exit, call, Type::F32);
    ret(&mut func, l.exit, result);
    module_of(Vec::new(), vec![callee, func])
}

fn produced(module: &Module, length: i32) -> f32 {
    Machine::new(module, Vec::new()).call("produce", &[Datum::Int(length)]).as_float()
}

#[test]
fn a_dot_product_is_accumulated_where_its_arrays_are_filled() {
    let before = producer(dot());
    let mut module = before.clone();
    ProducerConsumerFusionPass::new().run(&mut module);
    assert!(all_valid(&module));
    let kinds = insts(&module.funcs[1]);
    assert!(!kinds.iter().any(|kind| matches!(kind, InstKind::Call { .. })));
    assert!(!kinds.iter().any(|kind| matches!(kind, InstKind::Store { .. })));
    assert_eq!(module.funcs[0], before.funcs[0]);
    for length in [-1, 0, 1, 8] {
        assert_eq!(produced(&module, length).to_bits(), produced(&before, length).to_bits());
    }
    assert_eq!(produced(&module, 3), 0.0 * 0.5 + 1.0 * 1.5 + 2.0 * 2.5);
}

#[test]
fn nothing_is_fused_with_another_function() {
    let mut callee = dot();
    callee.blocks[2].insts.iter_mut().for_each(|inst| {
        if let InstKind::Binary { op, .. } = &mut inst.kind {
            if *op == BinaryOp::Fmul {
                *op = BinaryOp::Fsub;
            }
        }
    });
    let before = producer(callee);
    let mut module = before.clone();
    ProducerConsumerFusionPass::new().run(&mut module);
    assert_eq!(module, before);
}

/// int paths(int x, int y): 1 at the borders, else the sum of two neighbours.
fn paths() -> Module {
    let mut func = Function::new("paths", Type::I32);
    let x = func.add_param("x", Type::I32);
    let y = func.add_param("y", Type::I32);
    let zero = integer(&mut func, 0);
    let one = integer(&mut func, 1);
    let second = func.add_block("second");
    let border = func.add_block("border");
    let inner = func.add_block("inner");
    let entry = func.entry;
    let at_border = compare(&mut func, entry, CompareOp::Le, x, zero);
    branch(&mut func, entry, at_border, border, second);
    let at_border = compare(&mut func, second, CompareOp::Le, y, zero);
    branch(&mut func, second, at_border, border, inner);
    ret(&mut func, border, one);
    let left = binary(&mut func, inner, BinaryOp::Isub, x, one);
    let down = binary(&mut func, inner, BinaryOp::Isub, y, one);
    let call = InstKind::Call { name: "paths".to_string(), args: vec![left, y] };
    let a = append(&mut func, inner, call, Type::I32);
    let call = InstKind::Call { name: "paths".to_string(), args: vec![x, down] };
    let b = append(&mut func, inner, call, Type::I32);
    let sum = binary(&mut func, inner, BinaryOp::Iadd, a, b);
    ret(&mut func, inner, sum);
    module_of(Vec::new(), vec![func])
}

#[test]
fn a_memoized_recursion_returns_the_same_in_fewer_steps() {
    let before = paths();
    let mut module = before.clone();
    RecursiveMemoizePass::new().run(&mut module);
    assert!(all_valid(&module));
    assert_eq!(module.funcs.len(), 2);
    assert_eq!(module.globals.len(), 3);
    for (x, y) in [(0, 0), (1, 1), (3, 2), (-1, 4), (7, 7)] {
        assert_eq!(run_int(&module, "paths", &[x, y]), run_int(&before, "paths", &[x, y]));
    }
    assert_eq!(run_int(&module, "paths", &[3, 2]), 10);
    let mut plain = Machine::new(&before, Vec::new());
    plain.call("paths", &[Datum::Int(8), Datum::Int(8)]);
    let mut memoized = Machine::new(&module, Vec::new());
    memoized.call("paths", &[Datum::Int(8), Datum::Int(8)]);
    assert!(memoized.steps < plain.steps / 10);
}

// ---------------------------------------------------------------------------
// Integer operations
// ---------------------------------------------------------------------------

/// int scale(int x, int s): x times or divided by two to the power of s, for s
/// up to three.
fn scaling(op: BinaryOp, last: i32) -> Module {
    let mut func = Function::new("scale", Type::I32);
    let x = func.add_param("x", Type::I32);
    let s = func.add_param("s", Type::I32);
    let mut current = func.entry;
    for (key, factor) in [(1, 2), (2, 4), (3, last)] {
        let key = integer(&mut func, key);
        let factor = integer(&mut func, factor);
        let hit = func.add_block("hit");
        let miss = func.add_block("miss");
        let test = compare(&mut func, current, CompareOp::Eq, s, key);
        branch(&mut func, current, test, hit, miss);
        let scaled = binary(&mut func, hit, op, x, factor);
        ret(&mut func, hit, scaled);
        current = miss;
    }
    ret(&mut func, current, x);
    module_of(Vec::new(), vec![func])
}

#[test]
fn selected_powers_of_two_become_shifts() {
    for (op, kind) in [
        (BinaryOp::Imul, ScaleKind::Left),
        (BinaryOp::Idiv, ScaleKind::SignedDivide),
    ] {
        let before = scaling(op, 8);
        let candidate = match_piecewise_expr(&before.funcs[0]).unwrap();
        assert_eq!((candidate.minimum, candidate.maximum, candidate.kind), (1, 3, kind));
        let mut module = before.clone();
        PiecewiseExprPass::new().run(&mut module);
        assert!(all_valid(&module));
        assert!(has_block(&module.funcs[0], "idiom.piecewise.fast"));
        assert!(has_block(&module.funcs[0], "idiom.piecewise.fallback"));
        for x in [i32::MIN, -9, -1, 0, 5, 77, i32::MAX] {
            for s in [-1, 0, 1, 2, 3, 4, 40] {
                assert_eq!(
                    run_int(&module, "scale", &[x, s]),
                    run_int(&before, "scale", &[x, s])
                );
            }
        }
    }
}

#[test]
fn other_factors_are_no_scale() {
    let before = scaling(BinaryOp::Imul, 6);
    assert!(match_piecewise_expr(&before.funcs[0]).is_none());
    let mut module = before.clone();
    PiecewiseExprPass::new().run(&mut module);
    assert_eq!(module, before);
}

#[test]
fn divisions_of_known_numbers_go() {
    // if x % 4 == 0 { x / 4 } else { (x % 4) / 9 }
    let mut func = Function::new("divide", Type::I32);
    let x = func.add_param("x", Type::I32);
    let zero = integer(&mut func, 0);
    let four = integer(&mut func, 4);
    let nine = integer(&mut func, 9);
    let even = func.add_block("multiple");
    let other = func.add_block("other");
    let entry = func.entry;
    let rest = binary(&mut func, entry, BinaryOp::Imod, x, four);
    let exact = compare(&mut func, entry, CompareOp::Eq, rest, zero);
    branch(&mut func, entry, exact, even, other);
    let quotient = binary(&mut func, even, BinaryOp::Idiv, x, four);
    ret(&mut func, even, quotient);
    let nothing = binary(&mut func, other, BinaryOp::Idiv, rest, nine);
    ret(&mut func, other, nothing);
    let before = module_of(Vec::new(), vec![func]);
    let mut module = before.clone();
    RangeIntegerSimplifyPass::new().run(&mut module);
    assert!(all_valid(&module));
    assert!(!insts(&module.funcs[0])
        .iter()
        .any(|kind| matches!(kind, InstKind::Binary { op: BinaryOp::Idiv, .. })));
    for x in [-8, -7, -1, 0, 3, 12, 100] {
        assert_eq!(run_int(&module, "divide", &[x]), run_int(&before, "divide", &[x]));
    }
    assert_eq!(run_int(&module, "divide", &[-8]), -2);
}

#[test]
fn a_decided_comparison_is_not_made_again() {
    // if x < 5 { if x < 5 { 1 } else { 2 } } else { 3 }
    let mut func = Function::new("decide", Type::I32);
    let x = func.add_param("x", Type::I32);
    let one = integer(&mut func, 1);
    let two = integer(&mut func, 2);
    let three = integer(&mut func, 3);
    let five = integer(&mut func, 5);
    let below = func.add_block("below");
    let yes = func.add_block("yes");
    let no = func.add_block("no");
    let above = func.add_block("above");
    let entry = func.entry;
    let first = compare(&mut func, entry, CompareOp::Lt, x, five);
    branch(&mut func, entry, first, below, above);
    let second = compare(&mut func, below, CompareOp::Lt, x, five);
    branch(&mut func, below, second, yes, no);
    ret(&mut func, yes, one);
    ret(&mut func, no, two);
    ret(&mut func, above, three);
    let before = module_of(Vec::new(), vec![func]);
    let mut module = before.clone();
    RangeIntegerSimplifyPass::new().run(&mut module);
    assert!(all_valid(&module));
    let func = &module.funcs[0];
    let Some(Terminator::Branch { cond, .. }) = func.blocks[below.0].terminator else {
        panic!("the branch must stay");
    };
    assert_eq!(func.value(cond).kind, ValueKind::Const(Const::Bool(true)));
    for x in [-1, 4, 5, 6] {
        assert_eq!(run_int(&module, "decide", &[x]), run_int(&before, "decide", &[x]));
    }
}

// ---------------------------------------------------------------------------
// Control flow
// ---------------------------------------------------------------------------

/// Steps of simplification change how a function runs, not what it returns.
fn assert_simplified(before: Module, name: &str, blocks: usize, args: &[[i32; 2]]) {
    for pass in [SimplifyCfgPass::new(), SimplifyCfgPass::preserving_loop_preheaders()] {
        let mut module = before.clone();
        pass.run(&mut module);
        assert!(all_valid(&module));
        for arg in args {
            assert_eq!(run_int(&module, name, arg), run_int(&before, name, arg));
        }
    }
    let mut module = before;
    SimplifyCfgPass::new().run(&mut module);
    assert_eq!(module.funcs[0].blocks.len(), blocks);
}

const PAIRS: [[i32; 2]; 6] = [[0, 0], [1, 0], [0, 1], [5, 5], [-3, 7], [9, -2]];

/// x == 0 || y == 0 decides between two numbers.
#[test]
fn a_short_circuit_is_computed_without_its_branch() {
    let mut func = Function::new("either", Type::I32);
    let x = func.add_param("x", Type::I32);
    let y = func.add_param("y", Type::I32);
    let zero = integer(&mut func, 0);
    let truth = func.add_const(Const::Bool(true));
    let rhs = func.add_block("rhs");
    let merge = func.add_block("merge");
    let yes = func.add_block("yes");
    let no = func.add_block("no");
    let entry = func.entry;
    let first = compare(&mut func, entry, CompareOp::Eq, x, zero);
    branch(&mut func, entry, first, merge, rhs);
    let second = compare(&mut func, rhs, CompareOp::Eq, y, zero);
    jump(&mut func, rhs, merge);
    let either = phi(&mut func, merge, vec![(entry, truth), (rhs, second)], Type::I1);
    branch(&mut func, merge, either, yes, no);
    let sum = binary(&mut func, yes, BinaryOp::Iadd, x, y);
    ret(&mut func, yes, sum);
    let product = binary(&mut func, no, BinaryOp::Imul, x, y);
    ret(&mut func, no, product);
    assert_simplified(module_of(Vec::new(), vec![func]), "either", 3, &PAIRS);
}

/// x, less y where x is greater.
#[test]
fn a_conditional_update_is_computed_without_its_branch() {
    let mut func = Function::new("reduce", Type::I32);
    let x = func.add_param("x", Type::I32);
    let y = func.add_param("y", Type::I32);
    let update = func.add_block("update");
    let merge = func.add_block("merge");
    let entry = func.entry;
    let greater = compare(&mut func, entry, CompareOp::Gt, x, y);
    branch(&mut func, entry, greater, update, merge);
    let less = binary(&mut func, update, BinaryOp::Isub, x, y);
    jump(&mut func, update, merge);
    let result = phi(&mut func, merge, vec![(entry, x), (update, less)], Type::I32);
    ret(&mut func, merge, result);
    assert_simplified(module_of(Vec::new(), vec![func]), "reduce", 1, &PAIRS);
}

/// A branch on a constant, an empty block and blocks behind one another.
#[test]
fn a_straight_function_becomes_one_block() {
    let mut func = Function::new("straight", Type::I32);
    let x = func.add_param("x", Type::I32);
    let y = func.add_param("y", Type::I32);
    let truth = func.add_const(Const::Bool(true));
    let dead = func.add_block("dead");
    let empty = func.add_block("empty");
    let last = func.add_block("last");
    let entry = func.entry;
    let sum = binary(&mut func, entry, BinaryOp::Iadd, x, y);
    branch(&mut func, entry, truth, empty, dead);
    jump(&mut func, dead, last);
    jump(&mut func, empty, last);
    let taken = phi(&mut func, last, vec![(dead, x), (empty, sum)], Type::I32);
    let product = binary(&mut func, last, BinaryOp::Imul, taken, y);
    ret(&mut func, last, product);
    assert_simplified(module_of(Vec::new(), vec![func]), "straight", 1, &PAIRS);
}

#[test]
fn two_rounds_expand_a_recursion_further_than_one() {
    let before = paths();
    let mut once = before.clone();
    RecursiveInlinePass::with_rounds(1).run(&mut once);
    let mut twice = before.clone();
    RecursiveInlinePass::with_rounds(2).run(&mut twice);
    assert!(all_valid(&once) && all_valid(&twice));
    assert!(before.funcs[0].blocks.len() < once.funcs[0].blocks.len());
    assert!(once.funcs[0].blocks.len() < twice.funcs[0].blocks.len());
    for (x, y) in [(0, 0), (1, 1), (3, 2), (5, 5)] {
        assert_eq!(run_int(&twice, "paths", &[x, y]), run_int(&before, "paths", &[x, y]));
    }
}

// ---------------------------------------------------------------------------
// The pipeline
// ---------------------------------------------------------------------------

fn options(unroll: bool, regional: bool) -> PassOptions {
    PassOptions {
        enable_simple_loop_unroll: unroll,
        small_expr_inline_rounds: 1,
        cfg_inline_rounds: 1,
        cfg_inline_global_loads: false,
        recursive_inline_rounds: 1,
        enable_constant_address_count_reduction: false,
        enable_recursive_const_specialization: false,
        enable_initialized_global_propagation: false,
        enable_uniform_constant_arguments: false,
        enable_loop_call_memoize: false,
        enable_loop_invariant_call_memoize: false,
        enable_regional_global_scalar_promotion: regional,
        enable_write_only_alloca_cleanup_before_inline: true,
    }
}

#[test]
fn optimized_programs_do_the_same() {
    for level in [OptLevel::O0, OptLevel::O1] {
        for (unroll, regional) in [(false, false), (true, true)] {
            let mut module = filling();
            run_pipeline(&mut module, level, options(unroll, regional));
            assert!(all_valid(&module));
            for n in [0, 1, 5] {
                assert_eq!(
                    array_after(&module, "fill", &[n], "values", 8),
                    array_after(&filling(), "fill", &[n], "values", 8)
                );
            }
            let mut module = row_sums();
            run_pipeline(&mut module, level, options(unroll, regional));
            assert!(all_valid(&module));
            assert_eq!(sums(&module, 7), sums(&row_sums(), 7));
            let mut module = totals();
            run_pipeline(&mut module, level, options(unroll, regional));
            assert!(all_valid(&module));
            assert_eq!(run_int(&module, "add", &[10]), 45);
            let mut module = paths();
            run_pipeline(&mut module, level, options(unroll, regional));
            assert!(all_valid(&module));
            assert_eq!(run_int(&module, "paths", &[3, 2]), 10);
            let mut module = odd_chains(0);
            run_pipeline(&mut module, level, options(unroll, regional));
            assert!(all_valid(&module));
            let mut machine = Machine::new(&module, vec![30]);
            machine.call("main", &[]);
            let before = odd_chains(0);
            let mut plain = Machine::new(&before, vec![30]);
            plain.call("main", &[]);
            assert_eq!(machine.output, plain.output);
        }
    }
}

/// Two values change places while the parity of a counter decides; the number of
/// the phi that comes first must not matter.
#[test]
fn values_that_change_places_are_threaded_at_once() {
    let mut func = Function::new("swap", Type::I32);
    let p = func.add_param("p", Type::I32);
    let q = func.add_param("q", Type::I32);
    let zero = integer(&mut func, 0);
    let one = integer(&mut func, 1);
    let header = func.add_block("header");
    let latch = func.add_block("latch");
    let exit = func.add_block("exit");
    let entry = func.entry;
    jump(&mut func, entry, header);
    let b = phi(&mut func, header, vec![(entry, q)], Type::I32);
    let a = phi(&mut func, header, vec![(entry, p)], Type::I32);
    let k = phi(&mut func, header, vec![(entry, zero)], Type::I32);
    let bit = binary(&mut func, header, BinaryOp::Iand, k, one);
    let even = compare(&mut func, header, CompareOp::Eq, bit, zero);
    branch(&mut func, header, even, latch, exit);
    effect(&mut func, latch, InstKind::Call { name: "putint".to_string(), args: vec![a] });
    jump(&mut func, latch, header);
    add_entry(&mut func, b, latch, a);
    add_entry(&mut func, a, latch, b);
    add_entry(&mut func, k, latch, one);
    let shifted = binary(&mut func, exit, BinaryOp::Ishl, b, one);
    let sum = binary(&mut func, exit, BinaryOp::Iadd, a, shifted);
    ret(&mut func, exit, sum);
    let before = module_of(Vec::new(), vec![func]);
    let mut module = before.clone();
    SimplifyCfgPass::new().run(&mut module);
    assert!(all_valid(&module));
    assert_eq!(run_int(&before, "swap", &[3, 10]), 10 + 2 * 3);
    for [p, q] in PAIRS {
        assert_eq!(run_int(&module, "swap", &[p, q]), run_int(&before, "swap", &[p, q]));
    }
}

/// A value of a block that an edge could be led past is read behind it.
#[test]
fn an_edge_is_not_led_past_a_value_that_is_read_later() {
    let mut func = Function::new("later", Type::I32);
    let p = func.add_param("p", Type::I32);
    let limit = func.add_param("limit", Type::I32);
    let zero = integer(&mut func, 0);
    let one = integer(&mut func, 1);
    let five = integer(&mut func, 5);
    let header = func.add_block("header");
    let body = func.add_block("body");
    let middle = func.add_block("middle");
    let small = func.add_block("small");
    let large = func.add_block("large");
    let entry = func.entry;
    jump(&mut func, entry, header);
    let n = phi(&mut func, header, vec![(entry, p)], Type::I32);
    let k = phi(&mut func, header, vec![(entry, zero)], Type::I32);
    let bit = binary(&mut func, header, BinaryOp::Iand, k, one);
    let even = compare(&mut func, header, CompareOp::Eq, bit, zero);
    branch(&mut func, header, even, body, middle);
    effect(&mut func, body, InstKind::Call { name: "putint".to_string(), args: vec![n] });
    let next = binary(&mut func, body, BinaryOp::Iadd, n, five);
    jump(&mut func, body, header);
    add_entry(&mut func, n, body, next);
    add_entry(&mut func, k, body, one);
    let less = compare(&mut func, middle, CompareOp::Lt, n, limit);
    branch(&mut func, middle, less, small, large);
    for block in [small, large] {
        effect(&mut func, block, InstKind::Call { name: "putint".to_string(), args: vec![n] });
    }
    ret(&mut func, small, n);
    let more = binary(&mut func, large, BinaryOp::Iadd, n, one);
    ret(&mut func, large, more);
    let before = module_of(Vec::new(), vec![func]);
    let mut module = before.clone();
    SimplifyCfgPass::new().run(&mut module);
    assert!(all_valid(&module));
    assert_eq!(run_int(&before, "later", &[3, 10]), 8);
    for [p, limit] in PAIRS {
        assert_eq!(run_int(&module, "later", &[p, limit]), run_int(&before, "later", &[p, limit]));
    }
}

/// A number that is a multiple on one of two ways only is still divided.
#[test]
fn a_multiple_on_one_way_only_is_still_divided() {
    let mut func = Function::new("halve", Type::I32);
    let x = func.add_param("x", Type::I32);
    let zero = integer(&mut func, 0);
    let two = integer(&mut func, 2);
    let odd = func.add_block("odd");
    let join = func.add_block("join");
    let entry = func.entry;
    let rest = binary(&mut func, entry, BinaryOp::Imod, x, two);
    let exact = compare(&mut func, entry, CompareOp::Eq, rest, zero);
    branch(&mut func, entry, exact, join, odd);
    effect(&mut func, odd, InstKind::Call { name: "putint".to_string(), args: vec![x] });
    jump(&mut func, odd, join);
    let half = binary(&mut func, join, BinaryOp::Idiv, x, two);
    ret(&mut func, join, half);
    let before = module_of(Vec::new(), vec![func]);
    let mut module = before.clone();
    RangeIntegerSimplifyPass::new().run(&mut module);
    assert_eq!(run_int(&module, "halve", &[-3]), -1);
    assert_eq!(module, before);
}

/// A read through a pointer that may lead anywhere does not keep a global that
/// the loop only reads from being read once.
#[test]
fn another_read_does_not_keep_a_global_in_the_loop() {
    let mut func = Function::new("reading", Type::I32);
    let n = func.add_param("n", Type::I32);
    let other = func.add_param("other", pointer(Type::I32));
    let step = func.add_global_ref("step", pointer(Type::I32));
    let zero = integer(&mut func, 0);
    let one = integer(&mut func, 1);
    let entry = func.entry;
    let l = open_loop(&mut func, entry, &[(zero, Type::I32), (zero, Type::I32)]);
    test_loop(&mut func, &l, CompareOp::Lt, l.phis[0], n);
    let first = load(&mut func, l.body, step, Type::I32);
    let second = load(&mut func, l.body, step, Type::I32);
    let third = load(&mut func, l.body, other, Type::I32);
    let sum = binary(&mut func, l.body, BinaryOp::Iadd, l.phis[1], first);
    let sum = binary(&mut func, l.body, BinaryOp::Iadd, sum, second);
    let sum = binary(&mut func, l.body, BinaryOp::Iadd, sum, third);
    let next = binary(&mut func, l.body, BinaryOp::Iadd, l.phis[0], one);
    close_loop(&mut func, &l, l.body, &[next, sum]);
    ret(&mut func, l.exit, l.phis[1]);
    let mut module = module_of(vec![global("step", Type::I32)], vec![func]);
    RegionalInvariantGlobalLoadPass::new().run(&mut module);
    assert!(all_valid(&module));
    let loads = insts(&module.funcs[0])
        .iter()
        .filter(|kind| matches!(kind, InstKind::Load { .. }))
        .count();
    assert_eq!(loads, 2);
}

/// A consumer that also writes elsewhere is not fused.
#[test]
fn nothing_is_fused_with_a_consumer_that_writes() {
    let mut callee = dot();
    let x = callee.params[0];
    let none = float(&mut callee, 9.0);
    let exit = BlockId(callee.blocks.len() - 1);
    store(&mut callee, exit, x, none);
    let before = producer(callee);
    let mut module = before.clone();
    ProducerConsumerFusionPass::new().run(&mut module);
    assert_eq!(module, before);
}

/// An overwrite that leaves out the start of the destination is not complete.
#[test]
fn an_overwrite_of_another_part_is_not_complete() {
    let mut before = overwrites(true);
    let func = &mut before.funcs[1];
    let one = integer(func, 1);
    let right = func
        .values
        .iter()
        .position(|value| value.kind == ValueKind::Global("right".to_string()))
        .map(ValueId)
        .unwrap();
    let mut places = Vec::new();
    for (b, block) in func.blocks.iter().enumerate() {
        for (i, inst) in block.insts.iter().enumerate() {
            if matches!(&inst.kind, InstKind::Call { name, .. } if name == "update") {
                places.push((b, i));
            }
        }
    }
    let (b, _) = places[0];
    let row = pointer(array(Type::F32, 4));
    let behind = gep(func, BlockId(b), right, vec![one], row);
    // The address must stand before the call that takes it.
    let last = func.blocks[b].insts.len() - 1;
    for i in (places[0].1..last).rev() {
        func.blocks[b].insts.swap(i, i + 1);
    }
    for (i, inst) in func.blocks[b].insts.iter_mut().enumerate() {
        if let Some(result) = inst.result {
            func.values[result.0].kind = ValueKind::Inst(BlockId(b), i);
        }
        if let InstKind::Call { name, args } = &mut inst.kind {
            if name == "update" {
                args[2] = behind;
            }
        }
    }
    assert!(all_valid(&before));
    let mut module = before.clone();
    RepeatedOverwritePass::new().run(&mut module);
    assert_eq!(repeated_call_loop_initial(&module, "main", "update"), 0);
}

/// Stages run in the order of their list, each on what the one before it left.
#[test]
fn stages_run_in_the_order_of_their_list() {
    let before = twice();
    let mut module = before.clone();
    run_stages(&mut module, &Vec::new());
    assert_eq!(module, before);
    let simplify = Stage::SimplifyCfg { preserve_loop_preheaders: false };
    let mut both = before.clone();
    run_stages(&mut both, &vec![Stage::RegionalGlobalScalar, simplify]);
    let mut in_turn = before.clone();
    RegionalGlobalScalarPass::new().run(&mut in_turn);
    SimplifyCfgPass::new().run(&mut in_turn);
    assert_eq!(both, in_turn);
}

/// A simplified function has nothing left to simplify.
#[test]
fn simplifying_twice_is_simplifying_once() {
    for pass in [SimplifyCfgPass::new(), SimplifyCfgPass::preserving_loop_preheaders()] {
        for mut module in [twice(), walking(), prefix(true), paths()] {
            pass.run(&mut module);
            let once = module.clone();
            pass.run(&mut module);
            assert_eq!(module, once);
        }
    }
}
