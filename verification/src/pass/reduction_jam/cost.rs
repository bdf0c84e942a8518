//! What jamming a nest costs.
//!
//! Costs are numbers of values and instructions; a cost that does not fit in
//! the machine's numbers counts as too high.
use vstd::prelude::*;

use crate::edit;
use crate::edit::inst_operands;
use crate::flow;
use crate::flow::any_marked;
use crate::ir::{
    BlockId, FuncView, Function, Inst, InstKind, InstView, KindView, Type, ValueId, ValueKind,
    ValueKindView,
};
use crate::pass::reduction_jam::nest;
use crate::pass::reduction_jam::nest::{ConditionalNest, Nest};
use crate::pass::reduction_jam::shape;
use crate::pass::reduction_jam::shape::executable_instruction_count;
use crate::query;
use crate::util;
use crate::verify;
use crate::verify::contains_block;

verus! {

pub const MAX_TYPE_NODES: usize = 128;

// ---------------------------------------------------------------------------
// Saturating numbers
// ---------------------------------------------------------------------------

/// `count` is `n`, or the largest number that fits.
pub open spec fn held(count: u128, n: nat) -> bool {
    count == (if n <= u128::MAX {
        n as int
    } else {
        u128::MAX as int
    })
}

pub fn plus(a: u128, b: u128, Ghost(x): Ghost<nat>, Ghost(y): Ghost<nat>) -> (r: u128)
    requires
        held(a, x),
        held(b, y),
    ensures
        held(r, x + y),
{
    if a > u128::MAX - b {
        u128::MAX
    } else {
        a + b
    }
}

pub fn times(a: u128, k: u128, Ghost(x): Ghost<nat>) -> (r: u128)
    requires
        held(a, x),
        1 <= k <= 16,
    ensures
        held(r, x * k as nat),
{
    if a > u128::MAX / k {
        proof {
            assert(a as int * k as int > u128::MAX) by (nonlinear_arith)
                requires
                    a as int > u128::MAX as int / k as int,
                    k >= 1,
            ;
            assert(x * k as nat >= a as int * k as int) by (nonlinear_arith)
                requires
                    x >= a,
                    k >= 1,
            ;
        }
        u128::MAX
    } else {
        proof {
            assert(a as int * k as int <= u128::MAX) by (nonlinear_arith)
                requires
                    a as int <= u128::MAX as int / k as int,
                    k >= 1,
            ;
            if x > u128::MAX {
                assert(a == u128::MAX);
                assert(x * k as nat > u128::MAX) by (nonlinear_arith)
                    requires
                        x > u128::MAX,
                        k >= 1,
                ;
            }
        }
        a * k
    }
}

// ---------------------------------------------------------------------------
// Keys
// ---------------------------------------------------------------------------

/// The number of nodes of a type, if there are not more than `fuel`.
pub open spec fn type_nodes(ty: Type, fuel: nat) -> Option<nat>
    decreases fuel,
{
    if fuel == 0 {
        None
    } else {
        match ty {
            Type::Ptr(inner) => match type_nodes(*inner, (fuel - 1) as nat) {
                Some(n) => Some(n + 1),
                None => None,
            },
            Type::Array { elem, .. } => match type_nodes(*elem, (fuel - 1) as nat) {
                Some(n) => Some(n + 1),
                None => None,
            },
            _ => Some(1),
        }
    }
}

fn bounded_type_nodes(ty: &Type, fuel: usize) -> (r: Option<u128>)
    requires
        fuel <= MAX_TYPE_NODES,
    ensures
        match r {
            Some(n) => type_nodes(*ty, fuel as nat) == Some(n as nat) && n <= fuel,
            None => type_nodes(*ty, fuel as nat) is None,
        },
    decreases fuel,
{
    if fuel == 0 {
        return None;
    }
    match ty {
        Type::Ptr(inner) => {
            let n = bounded_type_nodes(&**inner, fuel - 1)?;
            Some(n + 1)
        },
        Type::Array { elem, .. } => {
            let n = bounded_type_nodes(&**elem, fuel - 1)?;
            Some(n + 1)
        },
        _ => Some(1),
    }
}

/// The number of operands by which an instruction is looked up, `Some(None)`
/// where it is not, and `None` where that cannot be told.
pub open spec fn key_size(f: FuncView, inst: InstView) -> Option<Option<nat>> {
    match inst.kind {
        KindView::Unary { .. } => Some(Some(1nat)),
        KindView::Cast { .. } => Some(Some(1nat)),
        KindView::Binary { .. } => Some(Some(2nat)),
        KindView::ICompare { .. } => Some(Some(2nat)),
        KindView::FCompare { .. } => Some(Some(2nat)),
        KindView::Gep { indices, .. } => match inst.result {
            Some(r) => match type_nodes(f.value(r).ty, MAX_TYPE_NODES as nat) {
                Some(n) => Some(Some(indices.len() + 1 + n)),
                None => None,
            },
            None => None,
        },
        KindView::Call { args, .. } => if inst.result is Some {
            Some(Some(args.len() + 1))
        } else {
            Some(None)
        },
        _ => Some(None),
    }
}

fn key_operands(func: &Function, inst: &Inst) -> (r: Option<Option<u128>>)
    requires
        edit::inst_wf(inst@, func@.blocks.len(), func@.values.len()),
    ensures
        match r {
            Some(Some(n)) => key_size(func@, inst@) == Some(Some(n as nat)),
            Some(None) => key_size(func@, inst@) == Some(None::<nat>),
            None => key_size(func@, inst@) is None,
        },
{
    match &inst.kind {
        InstKind::Unary { .. } => Some(Some(1)),
        InstKind::Cast { .. } => Some(Some(1)),
        InstKind::Binary { .. } => Some(Some(2)),
        InstKind::ICompare { .. } => Some(Some(2)),
        InstKind::FCompare { .. } => Some(Some(2)),
        InstKind::Gep { indices, .. } => {
            let v = inst.result?;
            assert(func.values@[v.0 as int]@ == func@.value(v));
            let n = bounded_type_nodes(&func.values[v.0].ty, MAX_TYPE_NODES)?;
            Some(Some(indices.len() as u128 + 1 + n))
        },
        InstKind::Call { args, .. } => if inst.result.is_some() {
            Some(Some(args.len() as u128 + 1))
        } else {
            Some(None)
        },
        _ => Some(None),
    }
}

// ---------------------------------------------------------------------------
// Tallies
// ---------------------------------------------------------------------------

/// What a block is for.
#[derive(Clone, Copy, PartialEq, Eq, Structural)]
pub struct Role {
    /// It prepares the inner loop.
    pub setup: bool,
    /// It stores the result.
    pub exit: bool,
    /// Values from outside that it reads stay live.
    pub external: bool,
    /// It runs in every round.
    pub sure: bool,
    /// Values of this block that it reads cross an edge.
    pub crossing: Option<BlockId>,
}

/// What the blocks of a nest hold.
pub struct Tally {
    pub instructions: u128,
    pub results: u128,
    pub setup_scalars: u128,
    pub keys: u128,
    pub key_operands: u128,
    pub sure_loads: u128,
    pub known: bool,
    pub dependent: Vec<bool>,
    pub loaded: Vec<bool>,
    pub surely_loaded: Vec<bool>,
    pub external: Vec<bool>,
    pub crossing: Vec<bool>,
}

pub struct TallyView {
    pub instructions: nat,
    pub results: nat,
    pub setup_scalars: nat,
    pub keys: nat,
    pub key_operands: nat,
    pub sure_loads: nat,
    pub known: bool,
    pub dependent: Seq<bool>,
    pub loaded: Seq<bool>,
    pub surely_loaded: Seq<bool>,
    pub external: Seq<bool>,
    pub crossing: Seq<bool>,
}

/// The tally is the mathematical one.
pub open spec fn tallies(t: Tally, v: TallyView) -> bool {
    &&& held(t.instructions, v.instructions)
    &&& held(t.results, v.results)
    &&& held(t.setup_scalars, v.setup_scalars)
    &&& held(t.keys, v.keys)
    &&& held(t.key_operands, v.key_operands)
    &&& held(t.sure_loads, v.sure_loads)
    &&& t.known == v.known
    &&& t.dependent@ == v.dependent
    &&& t.loaded@ == v.loaded
    &&& t.surely_loaded@ == v.surely_loaded
    &&& t.external@ == v.external
    &&& t.crossing@ == v.crossing
}

/// The marks have one entry per value.
pub open spec fn marks_fit(v: TallyView, n: nat) -> bool {
    &&& v.dependent.len() == n
    &&& v.loaded.len() == n
    &&& v.surely_loaded.len() == n
    &&& v.external.len() == n
    &&& v.crossing.len() == n
}

/// The value is a scalar from outside the blocks.
pub open spec fn is_external(f: FuncView, v: ValueId, blocks: Seq<BlockId>) -> bool {
    &&& match f.value(v).kind {
        ValueKindView::Param => true,
        ValueKindView::Inst(b, _) => !blocks.contains(b),
        _ => false,
    }
    &&& match f.value(v).ty {
        Type::I1 => true,
        Type::I32 => true,
        Type::F32 => true,
        _ => false,
    }
}

/// The marks with the external values of a list, from `k` on, added.
pub open spec fn external_marked(
    f: FuncView,
    blocks: Seq<BlockId>,
    marks: Seq<bool>,
    list: Seq<ValueId>,
    n: int,
) -> Seq<bool>
    decreases n,
{
    if n <= 0 {
        marks
    } else {
        let before = external_marked(f, blocks, marks, list, n - 1);
        if is_external(f, list[n - 1], blocks) {
            before.update(list[n - 1].0 as int, true)
        } else {
            before
        }
    }
}

/// The marks with the values of a list that block `b` defines added.
pub open spec fn crossing_marked(
    f: FuncView,
    b: BlockId,
    marks: Seq<bool>,
    list: Seq<ValueId>,
    n: int,
) -> Seq<bool>
    decreases n,
{
    if n <= 0 {
        marks
    } else {
        let before = crossing_marked(f, b, marks, list, n - 1);
        if util::def_block(f, list[n - 1]) == Some(b) {
            before.update(list[n - 1].0 as int, true)
        } else {
            before
        }
    }
}

/// The tally with one more instruction.
pub open spec fn with_inst(
    f: FuncView,
    blocks: Seq<BlockId>,
    t: TallyView,
    role: Role,
    inst: InstView,
) -> TallyView {
    let list = edit::operands(inst.kind);
    let n = list.len() as int;
    let counts = !(inst.kind is Nop) && !(role.exit && inst.kind is Store);
    let key = key_size(f, inst);
    TallyView {
        instructions: t.instructions + (if counts {
            1nat
        } else {
            0nat
        }),
        results: t.results + (if counts && inst.result is Some {
            1nat
        } else {
            0nat
        }),
        setup_scalars: t.setup_scalars + (match inst.result {
            Some(r) => if role.setup && !(f.value(r).ty is Ptr) {
                1nat
            } else {
                0nat
            },
            None => 0nat,
        }),
        keys: t.keys + (match key {
            Some(Some(_)) => 1nat,
            _ => 0nat,
        }),
        key_operands: t.key_operands + (match key {
            Some(Some(k)) => k + 1,
            _ => 0nat,
        }),
        sure_loads: t.sure_loads + (if role.sure && inst.kind is Load {
            1nat
        } else {
            0nat
        }),
        known: t.known && key is Some,
        dependent: match inst.result {
            Some(r) => if flow::some_marked(t.dependent, list) {
                t.dependent.update(r.0 as int, true)
            } else {
                t.dependent
            },
            None => t.dependent,
        },
        loaded: match inst.kind {
            KindView::Load { ptr } => t.loaded.update(ptr.0 as int, true),
            _ => t.loaded,
        },
        surely_loaded: match inst.kind {
            KindView::Load { ptr } => if role.sure {
                t.surely_loaded.update(ptr.0 as int, true)
            } else {
                t.surely_loaded
            },
            _ => t.surely_loaded,
        },
        external: if role.external {
            external_marked(f, blocks, t.external, list, n)
        } else {
            t.external
        },
        crossing: match (role.crossing, inst.result) {
            (Some(b), Some(_)) => crossing_marked(f, b, t.crossing, list, n),
            _ => t.crossing,
        },
    }
}

/// The tally with the first `n` instructions of a block.
pub open spec fn with_insts(
    f: FuncView,
    blocks: Seq<BlockId>,
    t: TallyView,
    role: Role,
    insts: Seq<InstView>,
    n: int,
) -> TallyView
    decreases n,
{
    if n <= 0 {
        t
    } else {
        with_inst(f, blocks, with_insts(f, blocks, t, role, insts, n - 1), role, insts[n - 1])
    }
}

/// The tally with a block.
pub open spec fn with_block(
    f: FuncView,
    blocks: Seq<BlockId>,
    t: TallyView,
    role: Role,
    b: BlockId,
) -> TallyView {
    let insts = f.block(b).insts;
    with_insts(f, blocks, t, role, insts, insts.len() as int)
}

pub open spec fn no_marks(n: nat) -> Seq<bool> {
    Seq::new(n, |v: int| false)
}

/// The tally of nothing; the counter and the accumulator depend on the lane.
pub open spec fn empty_tally(f: FuncView, n: Nest) -> TallyView {
    let none = no_marks(f.values.len());
    TallyView {
        instructions: 0,
        results: 0,
        setup_scalars: 0,
        keys: 0,
        key_operands: 0,
        sure_loads: 0,
        known: true,
        dependent: none.update(n.outer_induction.phi.0 as int, true).update(
            n.accumulator.0 as int,
            true,
        ),
        loaded: none,
        surely_loaded: none,
        external: none,
        crossing: none,
    }
}

fn mark_external(
    func: &Function,
    blocks: &Vec<BlockId>,
    marks: &mut Vec<bool>,
    list: &Vec<ValueId>,
)
    requires
        edit::reads_wf(list@, func@.values.len()),
        old(marks).len() == func@.values.len(),
    ensures
        final(marks)@ == external_marked(
            func@,
            blocks@,
            old(marks)@,
            list@,
            list.len() as int,
        ),
        final(marks).len() == old(marks).len(),
{
    let ghost start = marks@;
    let n = list.len();
    for k in 0..n
        invariant
            n == list.len(),
            edit::reads_wf(list@, func@.values.len()),
            marks.len() == func@.values.len(),
            marks@ == external_marked(func@, blocks@, start, list@, k as int),
    {
        let v = list[k];
        assert(list@[k as int].0 < func@.values.len());
        assert(func.values@[v.0 as int]@ == func@.value(v));
        let outside = match func.values[v.0].kind {
            ValueKind::Param => true,
            ValueKind::Inst(b, _) => !contains_block(blocks, b),
            _ => false,
        };
        let scalar = match func.values[v.0].ty {
            Type::I1 => true,
            Type::I32 => true,
            Type::F32 => true,
            _ => false,
        };
        if outside && scalar {
            marks.set(v.0, true);
        }
    }
}

fn mark_crossing(func: &Function, b: BlockId, marks: &mut Vec<bool>, list: &Vec<ValueId>)
    requires
        edit::reads_wf(list@, func@.values.len()),
        old(marks).len() == func@.values.len(),
    ensures
        final(marks)@ == crossing_marked(func@, b, old(marks)@, list@, list.len() as int),
        final(marks).len() == old(marks).len(),
{
    let ghost start = marks@;
    let n = list.len();
    for k in 0..n
        invariant
            n == list.len(),
            edit::reads_wf(list@, func@.values.len()),
            marks.len() == func@.values.len(),
            marks@ == crossing_marked(func@, b, start, list@, k as int),
    {
        let v = list[k];
        assert(list@[k as int].0 < func@.values.len());
        if let Some(d) = util::defining_block(func, v) {
            if d == b {
                marks.set(v.0, true);
            }
        }
    }
}

fn one_if(c: bool) -> (r: u128)
    ensures
        r == (if c {
            1int
        } else {
            0int
        }),
{
    if c {
        1
    } else {
        0
    }
}

/// Adds the numbers of one instruction.
fn tally_numbers(
    func: &Function,
    t: &mut Tally,
    role: Role,
    inst: &Inst,
    Ghost(blocks): Ghost<Seq<BlockId>>,
    Ghost(v): Ghost<TallyView>,
)
    requires
        edit::inst_wf(inst@, func@.blocks.len(), func@.values.len()),
        tallies(*old(t), v),
    ensures
        held(final(t).instructions, with_inst(func@, blocks, v, role, inst@).instructions),
        held(final(t).results, with_inst(func@, blocks, v, role, inst@).results),
        held(final(t).setup_scalars, with_inst(func@, blocks, v, role, inst@).setup_scalars),
        held(final(t).keys, with_inst(func@, blocks, v, role, inst@).keys),
        held(final(t).key_operands, with_inst(func@, blocks, v, role, inst@).key_operands),
        held(final(t).sure_loads, with_inst(func@, blocks, v, role, inst@).sure_loads),
        final(t).known == with_inst(func@, blocks, v, role, inst@).known,
        final(t).dependent == old(t).dependent,
        final(t).loaded == old(t).loaded,
        final(t).surely_loaded == old(t).surely_loaded,
        final(t).external == old(t).external,
        final(t).crossing == old(t).crossing,
{
    let counts = match inst.kind {
        InstKind::Nop => false,
        InstKind::Store { .. } => !role.exit,
        _ => true,
    };
    let scalar = match inst.result {
        Some(r) => {
            assert(func.values@[r.0 as int]@ == func@.value(r));
            match func.values[r.0].ty {
                Type::Ptr(_) => false,
                _ => role.setup,
            }
        },
        None => false,
    };
    let loads = match inst.kind {
        InstKind::Load { .. } => role.sure,
        _ => false,
    };
    let has_result = inst.result.is_some();
    t.instructions = plus(
        t.instructions,
        one_if(counts),
        Ghost(v.instructions),
        Ghost(
            if counts {
                1nat
            } else {
                0nat
            },
        ),
    );
    t.results = plus(
        t.results,
        one_if(counts && has_result),
        Ghost(v.results),
        Ghost(
            if counts && has_result {
                1nat
            } else {
                0nat
            },
        ),
    );
    t.setup_scalars = plus(
        t.setup_scalars,
        one_if(scalar),
        Ghost(v.setup_scalars),
        Ghost(
            if scalar {
                1nat
            } else {
                0nat
            },
        ),
    );
    t.sure_loads = plus(
        t.sure_loads,
        one_if(loads),
        Ghost(v.sure_loads),
        Ghost(
            if loads {
                1nat
            } else {
                0nat
            },
        ),
    );
    match key_operands(func, inst) {
        Some(Some(k)) => {
            t.keys = plus(t.keys, 1, Ghost(v.keys), Ghost(1nat));
            let more = plus(k, 1, Ghost(k as nat), Ghost(1nat));
            t.key_operands = plus(
                t.key_operands,
                more,
                Ghost(v.key_operands),
                Ghost(k as nat + 1),
            );
        },
        Some(None) => {},
        None => {
            t.known = false;
        },
    }
}

/// Adds one instruction.
fn tally_inst(
    func: &Function,
    blocks: &Vec<BlockId>,
    t: &mut Tally,
    role: Role,
    inst: &Inst,
    Ghost(v): Ghost<TallyView>,
)
    requires
        edit::inst_wf(inst@, func@.blocks.len(), func@.values.len()),
        tallies(*old(t), v),
        marks_fit(v, func@.values.len()),
    ensures
        tallies(*final(t), with_inst(func@, blocks@, v, role, inst@)),
        marks_fit(with_inst(func@, blocks@, v, role, inst@), func@.values.len()),
{
    proof {
        verify::lemma_kind_wf_operands(inst@.kind, func@.blocks.len(), func@.values.len());
    }
    tally_numbers(func, t, role, inst, Ghost(blocks@), Ghost(v));
    let list = inst_operands(&inst.kind);
    if let Some(r) = inst.result {
        if any_marked(&t.dependent, &list) {
            t.dependent.set(r.0, true);
        }
        if let Some(b) = role.crossing {
            mark_crossing(func, b, &mut t.crossing, &list);
        }
    }
    if let InstKind::Load { ptr } = inst.kind {
        t.loaded.set(ptr.0, true);
        if role.sure {
            t.surely_loaded.set(ptr.0, true);
        }
    }
    if role.external {
        mark_external(func, blocks, &mut t.external, &list);
    }
}

pub fn tally_block(
    func: &Function,
    blocks: &Vec<BlockId>,
    t: &mut Tally,
    role: Role,
    b: BlockId,
    Ghost(v): Ghost<TallyView>,
)
    requires
        func@.wf(),
        func@.has_block(b),
        tallies(*old(t), v),
        marks_fit(v, func@.values.len()),
    ensures
        tallies(*final(t), with_block(func@, blocks@, v, role, b)),
        marks_fit(with_block(func@, blocks@, v, role, b), func@.values.len()),
{
    let ghost f = func@;
    let ghost insts = f.block(b).insts;
    let n = func.blocks[b.0].insts.len();
    for i in 0..n
        invariant
            f == func@,
            f.wf(),
            f.has_block(b),
            insts == f.block(b).insts,
            n == insts.len(),
            tallies(*t, with_insts(f, blocks@, v, role, insts, i as int)),
            marks_fit(with_insts(f, blocks@, v, role, insts, i as int), f.values.len()),
    {
        let inst = &func.blocks[b.0].insts[i];
        assert(inst@ == f.inst(b, i as int));
        proof {
            query::lemma_inst_wf(f, b, i as int);
        }
        tally_inst(
            func,
            blocks,
            t,
            role,
            inst,
            Ghost(with_insts(f, blocks@, v, role, insts, i as int)),
        );
    }
}

pub fn blank(n: usize) -> (r: Vec<bool>)
    ensures
        r@ == no_marks(n as nat),
        r.len() == n,
{
    let mut r: Vec<bool> = Vec::new();
    for v in 0..n
        invariant
            r.len() == v,
            forall|j: int| 0 <= j < v ==> !(#[trigger] r@[j]),
    {
        r.push(false);
    }
    assert(r@ =~= no_marks(n as nat));
    r
}

fn start_tally(func: &Function, n: Nest) -> (r: Tally)
    requires
        func@.has_value(n.outer_induction.phi),
        func@.has_value(n.accumulator),
    ensures
        tallies(r, empty_tally(func@, n)),
        marks_fit(empty_tally(func@, n), func@.values.len()),
{
    let size = func.values.len();
    assert(size == func@.values.len());
    let mut dependent = blank(size);
    dependent.set(n.outer_induction.phi.0, true);
    dependent.set(n.accumulator.0, true);
    Tally {
        instructions: 0,
        results: 0,
        setup_scalars: 0,
        keys: 0,
        key_operands: 0,
        sure_loads: 0,
        known: true,
        dependent,
        loaded: blank(size),
        surely_loaded: blank(size),
        external: blank(size),
        crossing: blank(size),
    }
}

// ---------------------------------------------------------------------------
// Sums
// ---------------------------------------------------------------------------

/// The number of marks among the first `n`.
pub open spec fn marks_below(marks: Seq<bool>, n: int) -> nat
    decreases n,
{
    if n <= 0 {
        0
    } else {
        marks_below(marks, n - 1) + (if marks[n - 1] {
            1nat
        } else {
            0nat
        })
    }
}

pub open spec fn marks_in(marks: Seq<bool>) -> nat {
    marks_below(marks, marks.len() as int)
}

fn count_marks(marks: &Vec<bool>) -> (r: u128)
    ensures
        r == marks_in(marks@),
        r <= usize::MAX,
{
    let n = marks.len();
    let mut count: u128 = 0;
    for k in 0..n
        invariant
            n == marks.len(),
            count == marks_below(marks@, k as int),
            count <= k,
    {
        if marks[k] {
            count = count + 1;
        }
    }
    count
}

/// The pointer is the same for all lanes, and loaded in every round.
pub open spec fn is_shared(t: TallyView, v: int) -> bool {
    t.loaded[v] && !t.dependent[v] && t.surely_loaded[v]
}

/// The number of shared pointers among the first `n` values.
pub open spec fn shared_below(t: TallyView, n: int) -> nat
    decreases n,
{
    if n <= 0 {
        0
    } else {
        shared_below(t, n - 1) + (if is_shared(t, n - 1) {
            1nat
        } else {
            0nat
        })
    }
}

pub open spec fn shared_in(t: TallyView) -> nat {
    shared_below(t, t.loaded.len() as int)
}

fn count_shared(t: &Tally, Ghost(v): Ghost<TallyView>) -> (r: u128)
    requires
        tallies(*t, v),
        marks_fit(v, v.loaded.len()),
    ensures
        r == shared_in(v),
        r <= usize::MAX,
{
    let n = t.loaded.len();
    let mut count: u128 = 0;
    for k in 0..n
        invariant
            n == t.loaded.len(),
            tallies(*t, v),
            marks_fit(v, n as nat),
            count == shared_below(v, k as int),
            count <= k,
    {
        if t.loaded[k] && !t.dependent[k] && t.surely_loaded[k] {
            count = count + 1;
        }
    }
    count
}

/// The number of pointers that are loaded: one for a shared one, `factor` for
/// another.
pub open spec fn load_pointers(t: TallyView, factor: nat) -> nat {
    (marks_in(t.loaded) - shared_in(t)) as nat * factor + shared_in(t)
}

proof fn lemma_shared_loaded(t: TallyView, n: int)
    ensures
        shared_below(t, n) <= marks_below(t.loaded, n),
    decreases n,
{
    if n > 0 {
        lemma_shared_loaded(t, n - 1);
    }
}

/// The sizes of the distinct blocks among the first `n`.
pub open spec fn region_below(f: FuncView, list: Seq<BlockId>, n: int) -> nat
    decreases n,
{
    if n <= 0 {
        0
    } else {
        region_below(f, list, n - 1) + (if list.take(n - 1).contains(list[n - 1]) {
            0nat
        } else {
            shape::size_of(f, list[n - 1])
        })
    }
}

pub open spec fn region_of(f: FuncView, list: Seq<BlockId>) -> nat {
    region_below(f, list, list.len() as int)
}

fn measure_region(func: &Function, list: &Vec<BlockId>) -> (r: u128)
    requires
        list.len() <= 16,
        forall|k: int| 0 <= k < list.len() ==> func@.has_block(#[trigger] list@[k]),
    ensures
        r == region_of(func@, list@),
        r <= 16 * usize::MAX,
{
    let n = list.len();
    let mut total: u128 = 0;
    let mut seen: Vec<BlockId> = Vec::new();
    for k in 0..n
        invariant
            n == list.len(),
            n <= 16,
            forall|k: int| 0 <= k < list.len() ==> func@.has_block(#[trigger] list@[k]),
            seen@ == list@.take(k as int),
            total == region_below(func@, list@, k as int),
            total <= k * usize::MAX,
    {
        let b = list[k];
        assert(func@.has_block(list@[k as int]));
        if !contains_block(&seen, b) {
            total = total + executable_instruction_count(func, b) as u128;
        }
        seen.push(b);
        assert(seen@ =~= list@.take(k + 1));
    }
    total
}

// ---------------------------------------------------------------------------
// Costs
// ---------------------------------------------------------------------------

/// The cost of jamming.
pub struct Cost {
    pub pointer_values: u128,
    pub shared_load_streams: u128,
    pub mapped_values: u128,
    pub register_candidates: u128,
    pub projected_cse_keys: u128,
    pub projected_cse_operands: u128,
    pub peak_live_values: u128,
    pub code_growth: u128,
    pub original_region: u128,
}

pub struct CostView {
    pub pointer_values: nat,
    pub shared_load_streams: nat,
    pub mapped_values: nat,
    pub register_candidates: nat,
    pub projected_cse_keys: nat,
    pub projected_cse_operands: nat,
    pub peak_live_values: nat,
    pub code_growth: nat,
    pub original_region: nat,
}

pub open spec fn costs(c: Cost, v: CostView) -> bool {
    &&& held(c.pointer_values, v.pointer_values)
    &&& held(c.shared_load_streams, v.shared_load_streams)
    &&& held(c.mapped_values, v.mapped_values)
    &&& held(c.register_candidates, v.register_candidates)
    &&& held(c.projected_cse_keys, v.projected_cse_keys)
    &&& held(c.projected_cse_operands, v.projected_cse_operands)
    &&& held(c.peak_live_values, v.peak_live_values)
    &&& held(c.code_growth, v.code_growth)
    &&& held(c.original_region, v.original_region)
}

/// All numbers fit in the machine's.
pub open spec fn is_finite(v: CostView) -> bool {
    &&& v.pointer_values <= usize::MAX
    &&& v.shared_load_streams <= usize::MAX
    &&& v.mapped_values <= usize::MAX
    &&& v.register_candidates <= usize::MAX
    &&& v.projected_cse_keys <= usize::MAX
    &&& v.projected_cse_operands <= usize::MAX
    &&& v.peak_live_values <= usize::MAX
    &&& v.code_growth <= usize::MAX
    &&& v.original_region <= usize::MAX
}

pub open spec fn plain_role() -> Role {
    Role { setup: false, exit: false, external: false, sure: true, crossing: None }
}

/// The blocks of a nest.
pub open spec fn nest_blocks(n: Nest) -> Seq<BlockId> {
    seq![n.outer_header, n.inner_preheader, n.inner_header, n.inner_latch, n.inner_exit]
}

/// The tally of a nest with a single inner block.
pub open spec fn plain_tally(f: FuncView, n: Nest) -> TallyView {
    let blocks = nest_blocks(n);
    let t1 = with_block(
        f,
        blocks,
        empty_tally(f, n),
        Role { setup: true, ..plain_role() },
        n.inner_preheader,
    );
    let t2 = with_block(f, blocks, t1, Role { external: true, ..plain_role() }, n.inner_latch);
    with_block(f, blocks, t2, Role { exit: true, ..plain_role() }, n.inner_exit)
}

/// The cost of jamming a nest with a single inner block.
pub open spec fn plain_numbers(f: FuncView, n: Nest, factor: nat) -> CostView {
    let t = plain_tally(f, n);
    let pointers = factor + 1 + load_pointers(t, factor);
    CostView {
        pointer_values: pointers,
        shared_load_streams: shared_in(t),
        mapped_values: (t.results + 3) * factor,
        register_candidates: t.results * factor + 2 * factor + 4,
        projected_cse_keys: t.keys * factor + factor + 2,
        projected_cse_operands: t.key_operands * factor + 3 * (factor + 2),
        peak_live_values: factor + pointers + t.setup_scalars * factor + 4 + shared_in(t)
            + marks_in(t.external),
        code_growth: t.instructions * factor + 3 * factor + 4,
        original_region: region_of(f, nest_blocks(n)),
    }
}

pub open spec fn plain_cost(f: FuncView, n: Nest, factor: nat) -> Option<CostView> {
    let v = plain_numbers(f, n, factor);
    if plain_tally(f, n).known && is_finite(v) {
        Some(v)
    } else {
        None
    }
}

/// The blocks of a nest with a condition.
pub open spec fn conditional_blocks(c: ConditionalNest) -> Seq<BlockId> {
    let n = c.nest;
    seq![
        n.outer_header,
        n.inner_preheader,
        n.inner_header,
        c.condition,
        c.update,
        n.inner_latch,
        n.inner_exit,
    ]
}

pub open spec fn unsure_role() -> Role {
    Role { sure: false, ..plain_role() }
}

/// The tally of a nest with a condition. Only what the condition block loads
/// is loaded in every round.
pub open spec fn conditional_tally(f: FuncView, c: ConditionalNest) -> TallyView {
    let n = c.nest;
    let blocks = conditional_blocks(c);
    let t1 = with_block(
        f,
        blocks,
        empty_tally(f, n),
        Role { setup: true, ..unsure_role() },
        n.inner_preheader,
    );
    let t2 = with_block(
        f,
        blocks,
        t1,
        Role { external: true, ..plain_role() },
        c.condition,
    );
    let t3 = with_block(
        f,
        blocks,
        t2,
        Role { external: true, crossing: Some(c.condition), ..unsure_role() },
        c.update,
    );
    with_block(f, blocks, t3, Role { exit: true, ..unsure_role() }, n.inner_exit)
}

/// The cost of jamming a nest with a condition; the step of the inner counter,
/// an operation of two operands, is shared.
pub open spec fn conditional_numbers(f: FuncView, c: ConditionalNest, factor: nat) -> CostView {
    let t = conditional_tally(f, c);
    let pointers = factor + 1 + load_pointers(t, factor);
    CostView {
        pointer_values: pointers,
        shared_load_streams: shared_in(t),
        mapped_values: (t.results + 4) * factor + t.sure_loads * 2 + 1,
        register_candidates: t.results * factor + 3 * factor + 5,
        projected_cse_keys: t.keys * factor + 1 + factor + 2,
        projected_cse_operands: t.key_operands * factor + 3 + 3 * (factor + 2),
        peak_live_values: factor + pointers + t.setup_scalars * factor + 4 + shared_in(t)
            + marks_in(t.external) + marks_in(t.crossing) * factor + factor,
        code_growth: t.instructions * factor + 4 * factor + 5,
        original_region: region_of(f, conditional_blocks(c)),
    }
}

pub open spec fn conditional_cost(f: FuncView, c: ConditionalNest, factor: nat) -> Option<CostView> {
    let v = conditional_numbers(f, c, factor);
    if conditional_tally(f, c).known && is_finite(v) {
        Some(v)
    } else {
        None
    }
}

/// The pointers, whether shared or per lane.
fn measure_pointers(t: &Tally, factor: u128, Ghost(v): Ghost<TallyView>) -> (r: (u128, u128))
    requires
        tallies(*t, v),
        marks_fit(v, v.loaded.len()),
        2 <= factor <= 4,
    ensures
        r.0 == shared_in(v),
        r.0 <= usize::MAX,
        held(r.1, factor as nat + 1 + load_pointers(v, factor as nat)),
{
    let shared = count_shared(t, Ghost(v));
    let loaded = count_marks(&t.loaded);
    proof {
        lemma_shared_loaded(v, v.loaded.len() as int);
    }
    let lanes = times(
        loaded - shared,
        factor,
        Ghost((marks_in(v.loaded) - shared_in(v)) as nat),
    );
    let ghost a = (marks_in(v.loaded) - shared_in(v)) as nat * factor as nat;
    let sum = plus(lanes, shared, Ghost(a), Ghost(shared_in(v)));
    let total = plus(factor + 1, sum, Ghost(factor as nat + 1), Ghost(a + shared_in(v)));
    (shared, total)
}

fn finite(c: &Cost, Ghost(v): Ghost<CostView>) -> (r: bool)
    requires
        costs(*c, v),
    ensures
        r == is_finite(v),
{
    let max = usize::MAX as u128;
    c.pointer_values <= max && c.shared_load_streams <= max && c.mapped_values <= max
        && c.register_candidates <= max && c.projected_cse_keys <= max && c.projected_cse_operands
        <= max && c.peak_live_values <= max && c.code_growth <= max && c.original_region <= max
}

/// `a * factor + rest`.
fn scaled(a: u128, factor: u128, rest: u128, Ghost(x): Ghost<nat>) -> (r: u128)
    requires
        held(a, x),
        2 <= factor <= 4,
    ensures
        held(r, x * factor as nat + rest as nat),
{
    let p = times(a, factor, Ghost(x));
    plus(p, rest, Ghost(x * factor as nat), Ghost(rest as nat))
}

fn tally_plain(func: &Function, n: Nest) -> (r: Tally)
    requires
        func@.wf(),
        nest::nest_in(func@, n),
    ensures
        tallies(r, plain_tally(func@, n)),
        marks_fit(plain_tally(func@, n), func@.values.len()),
{
    let blocks = vec![
        n.outer_header,
        n.inner_preheader,
        n.inner_header,
        n.inner_latch,
        n.inner_exit,
    ];
    assert(blocks@ =~= nest_blocks(n));
    let plain = Role { setup: false, exit: false, external: false, sure: true, crossing: None };
    let mut t = start_tally(func, n);
    let ghost v0 = empty_tally(func@, n);
    let setup = Role { setup: true, ..plain };
    tally_block(func, &blocks, &mut t, setup, n.inner_preheader, Ghost(v0));
    let ghost v1 = with_block(func@, blocks@, v0, setup, n.inner_preheader);
    let body = Role { external: true, ..plain };
    tally_block(func, &blocks, &mut t, body, n.inner_latch, Ghost(v1));
    let ghost v2 = with_block(func@, blocks@, v1, body, n.inner_latch);
    let exit = Role { exit: true, ..plain };
    tally_block(func, &blocks, &mut t, exit, n.inner_exit, Ghost(v2));
    t
}

pub open spec fn cost_is(r: Option<Cost>, v: Option<CostView>) -> bool {
    match (r, v) {
        (Some(c), Some(w)) => costs(c, w),
        (None, None) => true,
        _ => false,
    }
}

pub fn estimate_jam_cost(func: &Function, n: Nest, factor: usize) -> (r: Option<Cost>)
    requires
        func@.wf(),
        nest::nest_in(func@, n),
        2 <= factor <= 4,
    ensures
        cost_is(r, plain_cost(func@, n, factor as nat)),
{
    let k = factor as u128;
    let t = tally_plain(func, n);
    let ghost v = plain_tally(func@, n);
    let ghost want = plain_numbers(func@, n, factor as nat);
    if !t.known {
        return None;
    }
    let (shared, pointers) = measure_pointers(&t, k, Ghost(v));
    let external = count_marks(&t.external);
    let more = plus(t.results, 3, Ghost(v.results), Ghost(3nat));
    let blocks = vec![
        n.outer_header,
        n.inner_preheader,
        n.inner_header,
        n.inner_latch,
        n.inner_exit,
    ];
    assert(blocks@ =~= nest_blocks(n));
    let setup = scaled(t.setup_scalars, k, k + 4 + shared + external, Ghost(v.setup_scalars));
    let peak = plus(
        pointers,
        setup,
        Ghost(want.pointer_values),
        Ghost(v.setup_scalars * factor as nat + (k + 4 + shared + external) as nat),
    );
    let c = Cost {
        pointer_values: pointers,
        shared_load_streams: shared,
        mapped_values: times(more, k, Ghost(v.results + 3)),
        register_candidates: scaled(t.results, k, 2 * k + 4, Ghost(v.results)),
        projected_cse_keys: scaled(t.keys, k, k + 2, Ghost(v.keys)),
        projected_cse_operands: scaled(t.key_operands, k, 3 * (k + 2), Ghost(v.key_operands)),
        peak_live_values: peak,
        code_growth: scaled(t.instructions, k, 3 * k + 4, Ghost(v.instructions)),
        original_region: measure_region(func, &blocks),
    };
    assert(costs(c, want));
    if finite(&c, Ghost(want)) {
        Some(c)
    } else {
        None
    }
}

fn tally_conditional(func: &Function, c: ConditionalNest) -> (r: Tally)
    requires
        func@.wf(),
        nest::nest_in(func@, c.nest),
        func@.has_block(c.condition),
        func@.has_block(c.update),
    ensures
        tallies(r, conditional_tally(func@, c)),
        marks_fit(conditional_tally(func@, c), func@.values.len()),
{
    let n = c.nest;
    let blocks = vec![
        n.outer_header,
        n.inner_preheader,
        n.inner_header,
        c.condition,
        c.update,
        n.inner_latch,
        n.inner_exit,
    ];
    assert(blocks@ =~= conditional_blocks(c));
    let plain = Role { setup: false, exit: false, external: false, sure: true, crossing: None };
    let unsure = Role { sure: false, ..plain };
    let mut t = start_tally(func, n);
    let ghost v0 = empty_tally(func@, n);
    let setup = Role { setup: true, ..unsure };
    tally_block(func, &blocks, &mut t, setup, n.inner_preheader, Ghost(v0));
    let ghost v1 = with_block(func@, blocks@, v0, setup, n.inner_preheader);
    let test = Role { external: true, ..plain };
    tally_block(func, &blocks, &mut t, test, c.condition, Ghost(v1));
    let ghost v2 = with_block(func@, blocks@, v1, test, c.condition);
    let update = Role { external: true, crossing: Some(c.condition), ..unsure };
    tally_block(func, &blocks, &mut t, update, c.update, Ghost(v2));
    let ghost v3 = with_block(func@, blocks@, v2, update, c.update);
    let exit = Role { exit: true, ..unsure };
    tally_block(func, &blocks, &mut t, exit, n.inner_exit, Ghost(v3));
    t
}

pub fn estimate_conditional_jam_cost(func: &Function, c: ConditionalNest, factor: usize) -> (r: Option<
    Cost,
>)
    requires
        func@.wf(),
        nest::nest_in(func@, c.nest),
        func@.has_block(c.condition),
        func@.has_block(c.update),
        2 <= factor <= 4,
    ensures
        cost_is(r, conditional_cost(func@, c, factor as nat)),
{
    let n = c.nest;
    let k = factor as u128;
    let t = tally_conditional(func, c);
    let ghost v = conditional_tally(func@, c);
    let ghost want = conditional_numbers(func@, c, factor as nat);
    if !t.known {
        return None;
    }
    let (shared, pointers) = measure_pointers(&t, k, Ghost(v));
    let external = count_marks(&t.external);
    let crossing = count_marks(&t.crossing);
    let blocks = vec![
        n.outer_header,
        n.inner_preheader,
        n.inner_header,
        c.condition,
        c.update,
        n.inner_latch,
        n.inner_exit,
    ];
    assert(blocks@ =~= conditional_blocks(c));
    let more = plus(t.results, 4, Ghost(v.results), Ghost(4nat));
    let lanes = times(more, k, Ghost(v.results + 4));
    let loads = times(t.sure_loads, 2, Ghost(v.sure_loads));
    let reused = plus(loads, 1, Ghost(v.sure_loads * 2), Ghost(1nat));
    let mapped = plus(
        lanes,
        reused,
        Ghost((v.results + 4) * factor as nat),
        Ghost(v.sure_loads * 2 + 1),
    );
    let fixed = 2 * k + 4 + shared + external;
    let crossed = scaled(crossing, k, fixed, Ghost(marks_in(v.crossing)));
    let ghost crossed_n = marks_in(v.crossing) * factor as nat + fixed as nat;
    let setup = times(t.setup_scalars, k, Ghost(v.setup_scalars));
    let live = plus(setup, crossed, Ghost(v.setup_scalars * factor as nat), Ghost(crossed_n));
    let peak = plus(
        pointers,
        live,
        Ghost(want.pointer_values),
        Ghost(v.setup_scalars * factor as nat + crossed_n),
    );
    let cost = Cost {
        pointer_values: pointers,
        shared_load_streams: shared,
        mapped_values: mapped,
        register_candidates: scaled(t.results, k, 3 * k + 5, Ghost(v.results)),
        projected_cse_keys: scaled(t.keys, k, k + 3, Ghost(v.keys)),
        projected_cse_operands: scaled(t.key_operands, k, 3 + 3 * (k + 2), Ghost(v.key_operands)),
        peak_live_values: peak,
        code_growth: scaled(t.instructions, k, 4 * k + 5, Ghost(v.instructions)),
        original_region: measure_region(func, &blocks),
    };
    assert(costs(cost, want));
    if finite(&cost, Ghost(want)) {
        Some(cost)
    } else {
        None
    }
}

} // verus!
