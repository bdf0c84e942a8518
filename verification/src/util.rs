//! Lookups and rewrites that several passes share.
use vstd::prelude::*;

use crate::edit;
use crate::ir;
use crate::ir::{
    BlockId, BlockView, Const, FuncView, Function, Inst, InstKind, InstView, KindView, Terminator,
    Type, Value, ValueId, ValueKind, ValueKindView,
};

verus! {

// ---------------------------------------------------------------------------
// Constants and definitions
// ---------------------------------------------------------------------------

/// The integer that a value is known to be.
pub open spec fn const_i32_of(f: FuncView, v: ValueId) -> Option<i32> {
    if f.has_value(v) {
        match f.value(v).kind {
            ValueKindView::Const(Const::Int(i)) => Some(i),
            ValueKindView::Const(Const::Zero(Type::I32)) => Some(0i32),
            _ => None,
        }
    } else {
        None
    }
}

/// The integer that a value is known to be.
pub fn const_i32(func: &Function, v: ValueId) -> (r: Option<i32>)
    ensures
        r == const_i32_of(func@, v),
{
    if v.0 < func.values.len() {
        match &func.values[v.0].kind {
            ValueKind::Const(Const::Int(i)) => Some(*i),
            ValueKind::Const(Const::Zero(Type::I32)) => Some(0i32),
            _ => None,
        }
    } else {
        None
    }
}

/// Whether a value is the given integer constant.
pub fn is_const_i32(func: &Function, v: ValueId, expected: i32) -> (r: bool)
    ensures
        r == (const_i32_of(func@, v) == Some(expected)),
{
    match const_i32(func, v) {
        Some(i) => i == expected,
        None => false,
    }
}

/// The operation at the place that a value names.
pub open spec fn def_kind(f: FuncView, v: ValueId) -> Option<KindView> {
    if f.has_value(v) {
        match f.value(v).kind {
            ValueKindView::Inst(b, i) => if f.has_inst(b, i as int) {
                Some(f.inst(b, i as int).kind)
            } else {
                None
            },
            _ => None,
        }
    } else {
        None
    }
}

/// The view of an optional borrowed operation.
pub open spec fn kind_ref(kind: Option<&InstKind>) -> Option<KindView> {
    match kind {
        Some(k) => Some(k@),
        None => None,
    }
}

/// The operation at the place that a value names.
pub fn defining_inst(func: &Function, v: ValueId) -> (r: Option<&InstKind>)
    ensures
        kind_ref(r) == def_kind(func@, v),
{
    if v.0 >= func.values.len() {
        return None;
    }
    match &func.values[v.0].kind {
        ValueKind::Inst(b, i) => {
            if b.0 < func.blocks.len() && *i < func.blocks[b.0].insts.len() {
                assert(func@.inst(*b, *i as int) == func.blocks@[b.0 as int].insts@[*i as int]@);
                Some(&func.blocks[b.0].insts[*i].kind)
            } else {
                None
            }
        },
        _ => None,
    }
}

/// The block whose instruction defines a value.
pub open spec fn def_block(f: FuncView, v: ValueId) -> Option<BlockId> {
    if f.has_value(v) {
        match f.value(v).kind {
            ValueKindView::Inst(b, _) => Some(b),
            _ => None,
        }
    } else {
        None
    }
}

/// The block whose instruction defines a value.
pub fn defining_block(func: &Function, v: ValueId) -> (r: Option<BlockId>)
    ensures
        r == def_block(func@, v),
{
    if v.0 >= func.values.len() {
        return None;
    }
    match &func.values[v.0].kind {
        ValueKind::Inst(b, _) => Some(*b),
        _ => None,
    }
}

/// The first incoming value from `pred`.
pub open spec fn incoming_from(incomings: Seq<(BlockId, ValueId)>, pred: BlockId) -> Option<ValueId>
    decreases incomings.len(),
{
    if incomings.len() == 0 {
        None
    } else if incomings[0].0 == pred {
        Some(incomings[0].1)
    } else {
        incoming_from(incomings.drop_first(), pred)
    }
}

/// The first incoming value from `pred`.
pub fn first_incoming(incomings: &Vec<(BlockId, ValueId)>, pred: BlockId) -> (r: Option<ValueId>)
    ensures
        r == incoming_from(incomings@, pred),
{
    let n = incomings.len();
    assert(incomings@.skip(0) =~= incomings@);
    for i in 0..n
        invariant
            n == incomings.len(),
            incoming_from(incomings@, pred) == incoming_from(incomings@.skip(i as int), pred),
    {
        assert(incomings@.skip(i as int).drop_first() =~= incomings@.skip(i + 1));
        assert(incomings@.skip(i as int)[0] == incomings@[i as int]);
        if incomings[i].0 == pred {
            return Some(incomings[i].1);
        }
    }
    None
}

/// The value that the phi `phi` takes when control comes from `pred`.
pub open spec fn phi_incoming_of(f: FuncView, phi: ValueId, pred: BlockId) -> Option<ValueId> {
    match def_kind(f, phi) {
        Some(KindView::Phi { incomings }) => incoming_from(incomings, pred),
        _ => None,
    }
}

/// The value that the phi `phi` takes when control comes from `pred`.
pub fn phi_incoming(func: &Function, phi: ValueId, pred: BlockId) -> (r: Option<ValueId>)
    ensures
        r == phi_incoming_of(func@, phi, pred),
{
    match defining_inst(func, phi) {
        Some(InstKind::Phi { incomings }) => first_incoming(incomings, pred),
        _ => None,
    }
}

// ---------------------------------------------------------------------------
// Constants on demand
// ---------------------------------------------------------------------------

/// `v` is the constant `c`, with the constant's own type.
pub open spec fn is_const_value(f: FuncView, v: int, c: Const) -> bool {
    f.values[v].ty == ir::const_type(c) && f.values[v].kind == ValueKindView::Const(c)
}

/// The first value at or behind `from` that is the constant `c`.
pub open spec fn find_const(f: FuncView, c: Const, from: int) -> Option<ValueId>
    decreases f.values.len() - from,
{
    if from < 0 || from >= f.values.len() {
        None
    } else if is_const_value(f, from, c) {
        Some(ValueId(from as usize))
    } else {
        find_const(f, c, from + 1)
    }
}

/// The value to use for the constant `c`: one that exists, else the next one.
pub open spec fn const_value(f: FuncView, c: Const) -> ValueId {
    match find_const(f, c, 0) {
        Some(v) => v,
        None => f.next_value(),
    }
}

/// The function with a value for the constant `c`.
pub open spec fn with_const(f: FuncView, c: Const) -> FuncView {
    match find_const(f, c, 0) {
        Some(_) => f,
        None => f.add_const(c),
    }
}

/// The value that is the constant `c`; it is added where none exists.
pub fn get_or_add_const(func: &mut Function, c: &Const) -> (r: ValueId)
    ensures
        r == const_value(old(func)@, *c),
        final(func)@ == with_const(old(func)@, *c),
        old(func)@.wf() ==> final(func)@.wf(),
        final(func)@.has_value(r),
        final(func)@.values.len() >= old(func)@.values.len(),
{
    let n = func.values.len();
    let ty = c.ty();
    for v in 0..n
        invariant
            func@ == old(func)@,
            n == func@.values.len(),
            ty == ir::const_type(*c),
            find_const(func@, *c, 0) == find_const(func@, *c, v as int),
    {
        let value = &func.values[v];
        assert(value@ == func@.values[v as int]);
        if value.ty.same(&ty) {
            if let ValueKind::Const(existing) = &value.kind {
                if existing.same(c) {
                    return ValueId(v);
                }
            }
        }
    }
    let id = func.add_const(c.clone());
    assert(func@.values.len() == n + 1);
    assert(func.values.len() == func@.values.len());
    id
}

/// The value that is the integer constant `i`; it is added where none exists.
pub fn get_or_add_i32_const(func: &mut Function, i: i32) -> (r: ValueId)
    ensures
        r == const_value(old(func)@, Const::Int(i)),
        final(func)@ == with_const(old(func)@, Const::Int(i)),
        old(func)@.wf() ==> final(func)@.wf(),
        final(func)@.has_value(r),
        final(func)@.values.len() >= old(func)@.values.len(),
{
    get_or_add_const(func, &Const::Int(i))
}

/// The first value at or behind `from` that refers to the global.
pub open spec fn find_global(f: FuncView, name: Seq<char>, ty: Type, from: int) -> Option<ValueId>
    decreases f.values.len() - from,
{
    if from < 0 || from >= f.values.len() {
        None
    } else if f.values[from].ty == ty && f.values[from].kind == ValueKindView::Global(name) {
        Some(ValueId(from as usize))
    } else {
        find_global(f, name, ty, from + 1)
    }
}

/// The value to use for the global: one that exists, else the next one.
pub open spec fn global_value(f: FuncView, name: Seq<char>, ty: Type) -> ValueId {
    match find_global(f, name, ty, 0) {
        Some(v) => v,
        None => f.next_value(),
    }
}

/// The function with a reference to the global.
pub open spec fn with_global(f: FuncView, name: Seq<char>, ty: Type) -> FuncView {
    match find_global(f, name, ty, 0) {
        Some(_) => f,
        None => f.add_global_ref(name, ty),
    }
}

/// The value that refers to the global; it is added where none exists.
pub fn get_or_add_global(func: &mut Function, name: &String, ty: &Type) -> (r: ValueId)
    ensures
        r == global_value(old(func)@, name@, *ty),
        final(func)@ == with_global(old(func)@, name@, *ty),
        old(func)@.wf() ==> final(func)@.wf(),
        final(func)@.has_value(r),
        final(func)@.values.len() >= old(func)@.values.len(),
{
    let n = func.values.len();
    for v in 0..n
        invariant
            func@ == old(func)@,
            n == func@.values.len(),
            find_global(func@, name@, *ty, 0) == find_global(func@, name@, *ty, v as int),
    {
        let value = &func.values[v];
        assert(value@ == func@.values[v as int]);
        if value.ty.same(ty) {
            if let ValueKind::Global(existing) = &value.kind {
                if *existing == *name {
                    return ValueId(v);
                }
            }
        }
    }
    let id = func.push_value(
        Value { name: None, ty: ty.clone(), kind: ValueKind::Global(name.clone()) },
    );
    assert(func@.values.len() == n + 1);
    assert(func.values.len() == func@.values.len());
    id
}

// ---------------------------------------------------------------------------
// Maps from values to values
// ---------------------------------------------------------------------------

/// A finite map from values to values.
pub struct ValueMap {
    slots: Vec<Option<ValueId>>,
}

impl Clone for ValueMap {
    fn clone(&self) -> (r: Self)
        ensures
            r@ == self@,
    {
        let n = self.slots.len();
        let mut slots: Vec<Option<ValueId>> = Vec::new();
        for i in 0..n
            invariant
                n == self.slots.len(),
                slots@ == self.slots@.take(i as int),
        {
            slots.push(self.slots[i]);
            assert(slots@ =~= self.slots@.take(i + 1));
        }
        assert(slots@ =~= self.slots@);
        ValueMap { slots }
    }
}

impl View for ValueMap {
    type V = Map<ValueId, ValueId>;

    closed spec fn view(&self) -> Map<ValueId, ValueId> {
        Map::new(
            |v: ValueId| v.0 < self.slots@.len() && self.slots@[v.0 as int] is Some,
            |v: ValueId| self.slots@[v.0 as int]->0,
        )
    }
}

/// What `map` gives for `v`, or `v` itself.
pub open spec fn apply(map: Map<ValueId, ValueId>, v: ValueId) -> ValueId {
    if map.contains_key(v) {
        map[v]
    } else {
        v
    }
}

/// Follows `map` from `v` for at most `fuel` steps.
pub open spec fn resolve(map: Map<ValueId, ValueId>, v: ValueId, fuel: nat) -> ValueId
    decreases fuel,
{
    if fuel == 0 || !map.contains_key(v) || map[v] == v {
        v
    } else {
        resolve(map, map[v], (fuel - 1) as nat)
    }
}

/// Every value that the map gives is one of the first `nv`.
pub open spec fn range_below(map: Map<ValueId, ValueId>, nv: nat) -> bool {
    forall|v: ValueId| #[trigger] map.contains_key(v) ==> map[v].0 < nv
}

pub proof fn lemma_resolve_in_range(map: Map<ValueId, ValueId>, v: ValueId, fuel: nat, nv: nat)
    requires
        range_below(map, nv),
        v.0 < nv,
    ensures
        resolve(map, v, fuel).0 < nv,
    decreases fuel,
{
    if !(fuel == 0 || !map.contains_key(v) || map[v] == v) {
        lemma_resolve_in_range(map, map[v], (fuel - 1) as nat, nv);
    }
}

impl ValueMap {
    /// The empty map.
    pub fn new() -> (r: Self)
        ensures
            r@ == Map::<ValueId, ValueId>::empty(),
    {
        let r = ValueMap { slots: Vec::new() };
        assert(r@ =~= Map::<ValueId, ValueId>::empty());
        r
    }

    /// What the map gives for `v`.
    pub fn get(&self, v: ValueId) -> (r: Option<ValueId>)
        ensures
            r == (if self@.contains_key(v) {
                Some(self@[v])
            } else {
                None
            }),
    {
        if v.0 < self.slots.len() {
            self.slots[v.0]
        } else {
            None
        }
    }

    /// What the map gives for `v`, or `v` itself.
    pub fn apply(&self, v: ValueId) -> (r: ValueId)
        ensures
            r == apply(self@, v),
    {
        match self.get(v) {
            Some(w) => w,
            None => v,
        }
    }

    /// Maps `v` to `w`.
    pub fn insert(&mut self, v: ValueId, w: ValueId)
        requires
            v.0 < usize::MAX,
        ensures
            final(self)@ == old(self)@.insert(v, w),
    {
        while self.slots.len() <= v.0
            invariant
                self@ == old(self)@,
                v.0 < usize::MAX,
            decreases usize::MAX - self.slots.len(),
        {
            let ghost before = self@;
            self.slots.push(None);
            assert(self@ =~= before);
        }
        let ghost before = self@;
        self.slots[v.0] = Some(w);
        assert(self@ =~= before.insert(v, w));
    }

    /// A copy of the map.
    pub fn copy(&self) -> (r: Self)
        ensures
            r@ == self@,
    {
        let mut slots: Vec<Option<ValueId>> = Vec::new();
        let n = self.slots.len();
        for k in 0..n
            invariant
                n == self.slots.len(),
                slots.len() == k,
                forall|j: int| 0 <= j < k ==> #[trigger] slots@[j] == self.slots@[j],
        {
            slots.push(self.slots[k]);
        }
        assert(slots@ =~= self.slots@);
        ValueMap { slots }
    }

    /// Follows the map from `v` for at most `fuel` steps.
    pub fn resolve(&self, v: ValueId, fuel: usize) -> (r: ValueId)
        ensures
            r == resolve(self@, v, fuel as nat),
    {
        let mut cur: ValueId = v;
        let mut left: usize = fuel;
        while left > 0
            invariant
                resolve(self@, v, fuel as nat) == resolve(self@, cur, left as nat),
            decreases left,
        {
            match self.get(cur) {
                None => {
                    return cur;
                },
                Some(next) => {
                    if next == cur {
                        return cur;
                    }
                    cur = next;
                    left = left - 1;
                },
            }
        }
        cur
    }
}

// ---------------------------------------------------------------------------
// Rewriting operands
// ---------------------------------------------------------------------------

pub open spec fn map_incomings(
    incomings: Seq<(BlockId, ValueId)>,
    g: spec_fn(ValueId) -> ValueId,
) -> Seq<(BlockId, ValueId)> {
    incomings.map_values(|inc: (BlockId, ValueId)| (inc.0, g(inc.1)))
}

/// The operation with every operand replaced by what `g` gives for it.
pub open spec fn map_kind(kind: KindView, g: spec_fn(ValueId) -> ValueId) -> KindView {
    match kind {
        KindView::Nop => KindView::Nop,
        KindView::Alloca { ty } => KindView::Alloca { ty },
        KindView::Phi { incomings } => KindView::Phi { incomings: map_incomings(incomings, g) },
        KindView::Load { ptr } => KindView::Load { ptr: g(ptr) },
        KindView::Store { ptr, value } => KindView::Store { ptr: g(ptr), value: g(value) },
        KindView::MemZero { ptr, bytes, count } => KindView::MemZero {
            ptr: g(ptr),
            bytes,
            count: match count {
                Some(count) => Some(g(count)),
                None => None,
            },
        },
        KindView::MemCopy { dst, src, element_bytes, count } => KindView::MemCopy {
            dst: g(dst),
            src: g(src),
            element_bytes,
            count: g(count),
        },
        KindView::Unary { op, value } => KindView::Unary { op, value: g(value) },
        KindView::Binary { op, lhs, rhs } => KindView::Binary { op, lhs: g(lhs), rhs: g(rhs) },
        KindView::ICompare { op, lhs, rhs } => KindView::ICompare {
            op,
            lhs: g(lhs),
            rhs: g(rhs),
        },
        KindView::FCompare { op, lhs, rhs } => KindView::FCompare {
            op,
            lhs: g(lhs),
            rhs: g(rhs),
        },
        KindView::Cast { op, value } => KindView::Cast { op, value: g(value) },
        KindView::Gep { base, indices } => KindView::Gep {
            base: g(base),
            indices: indices.map_values(g),
        },
        KindView::Call { name, args } => KindView::Call { name, args: args.map_values(g) },
    }
}

pub open spec fn map_terminator(
    terminator: Option<Terminator>,
    g: spec_fn(ValueId) -> ValueId,
) -> Option<Terminator> {
    match terminator {
        Some(Terminator::Return(Some(value))) => Some(Terminator::Return(Some(g(value)))),
        Some(Terminator::Branch { cond, then_target, else_target }) => Some(
            Terminator::Branch { cond: g(cond), then_target, else_target },
        ),
        t => t,
    }
}

/// The substitution that `resolve` stands for.
pub open spec fn resolver(map: Map<ValueId, ValueId>, fuel: nat) -> spec_fn(ValueId) -> ValueId {
    |v: ValueId| resolve(map, v, fuel)
}

pub open spec fn map_inst(inst: InstView, g: spec_fn(ValueId) -> ValueId) -> InstView {
    InstView { result: inst.result, kind: map_kind(inst.kind, g) }
}

/// The operation with every operand resolved through `map`.
pub fn resolve_kind(kind: &InstKind, map: &ValueMap, fuel: usize) -> (r: InstKind)
    ensures
        r@ == map_kind(kind@, resolver(map@, fuel as nat)),
{
    let ghost g = resolver(map@, fuel as nat);
    match kind {
        InstKind::Nop => InstKind::Nop,
        InstKind::Alloca { ty } => InstKind::Alloca { ty: ty.clone() },
        InstKind::Phi { incomings } => {
            let mut list: Vec<(BlockId, ValueId)> = Vec::new();
            let n = incomings.len();
            for i in 0..n
                invariant
                    n == incomings.len(),
                    g == resolver(map@, fuel as nat),
                    list.len() == i,
                    forall|j: int|
                        0 <= j < i ==> #[trigger] list@[j] == map_incomings(incomings@, g)[j],
            {
                list.push((incomings[i].0, map.resolve(incomings[i].1, fuel)));
            }
            assert(list@ =~= map_incomings(incomings@, g));
            InstKind::Phi { incomings: list }
        },
        InstKind::Load { ptr } => InstKind::Load { ptr: map.resolve(*ptr, fuel) },
        InstKind::Store { ptr, value } => InstKind::Store {
            ptr: map.resolve(*ptr, fuel),
            value: map.resolve(*value, fuel),
        },
        InstKind::MemZero { ptr, bytes, count } => InstKind::MemZero {
            ptr: map.resolve(*ptr, fuel),
            bytes: *bytes,
            count: match count {
                Some(count) => Some(map.resolve(*count, fuel)),
                None => None,
            },
        },
        InstKind::MemCopy { dst, src, element_bytes, count } => InstKind::MemCopy {
            dst: map.resolve(*dst, fuel),
            src: map.resolve(*src, fuel),
            element_bytes: *element_bytes,
            count: map.resolve(*count, fuel),
        },
        InstKind::Unary { op, value } => InstKind::Unary {
            op: *op,
            value: map.resolve(*value, fuel),
        },
        InstKind::Binary { op, lhs, rhs } => InstKind::Binary {
            op: *op,
            lhs: map.resolve(*lhs, fuel),
            rhs: map.resolve(*rhs, fuel),
        },
        InstKind::ICompare { op, lhs, rhs } => InstKind::ICompare {
            op: *op,
            lhs: map.resolve(*lhs, fuel),
            rhs: map.resolve(*rhs, fuel),
        },
        InstKind::FCompare { op, lhs, rhs } => InstKind::FCompare {
            op: *op,
            lhs: map.resolve(*lhs, fuel),
            rhs: map.resolve(*rhs, fuel),
        },
        InstKind::Cast { op, value } => InstKind::Cast {
            op: *op,
            value: map.resolve(*value, fuel),
        },
        InstKind::Gep { base, indices } => InstKind::Gep {
            base: map.resolve(*base, fuel),
            indices: resolve_list(indices, map, fuel),
        },
        InstKind::Call { name, args } => InstKind::Call {
            name: name.clone(),
            args: resolve_list(args, map, fuel),
        },
    }
}

fn resolve_list(values: &Vec<ValueId>, map: &ValueMap, fuel: usize) -> (r: Vec<ValueId>)
    ensures
        r@ == values@.map_values(resolver(map@, fuel as nat)),
{
    let mut r: Vec<ValueId> = Vec::new();
    let n = values.len();
    for i in 0..n
        invariant
            n == values.len(),
            r.len() == i,
            forall|j: int|
                0 <= j < i ==> #[trigger] r@[j] == resolve(map@, values@[j], fuel as nat),
    {
        r.push(map.resolve(values[i], fuel));
    }
    assert(r@ =~= values@.map_values(resolver(map@, fuel as nat)));
    r
}

/// The terminator with its operand resolved through `map`.
pub fn resolve_terminator(terminator: &Option<Terminator>, map: &ValueMap, fuel: usize) -> (r:
    Option<Terminator>)
    ensures
        r == map_terminator(*terminator, resolver(map@, fuel as nat)),
{
    match terminator {
        Some(Terminator::Return(Some(value))) => Some(
            Terminator::Return(Some(map.resolve(*value, fuel))),
        ),
        Some(Terminator::Branch { cond, then_target, else_target }) => Some(
            Terminator::Branch {
                cond: map.resolve(*cond, fuel),
                then_target: *then_target,
                else_target: *else_target,
            },
        ),
        t => *t,
    }
}

/// A block with every use from position `start` on, and the terminator,
/// replaced.
pub open spec fn map_block(
    block: BlockView,
    start: int,
    g: spec_fn(ValueId) -> ValueId,
) -> BlockView {
    BlockView {
        insts: Seq::new(
            block.insts.len(),
            |i: int|
                if i < start {
                    block.insts[i]
                } else {
                    map_inst(block.insts[i], g)
                },
        ),
        terminator: map_terminator(block.terminator, g),
        ..block
    }
}

/// A function with every use replaced.
pub open spec fn map_uses(f: FuncView, g: spec_fn(ValueId) -> ValueId) -> FuncView {
    FuncView { blocks: f.blocks.map_values(|b: BlockView| map_block(b, 0, g)), ..f }
}

/// `g` keeps values in range.
pub open spec fn keeps_range(g: spec_fn(ValueId) -> ValueId, nv: nat) -> bool {
    forall|v: ValueId| v.0 < nv ==> (#[trigger] g(v)).0 < nv
}

/// Replacing operands by values in range keeps an operation well formed.
pub proof fn lemma_map_kind_wf(
    kind: KindView,
    g: spec_fn(ValueId) -> ValueId,
    nb: nat,
    nv: nat,
)
    requires
        edit::kind_wf(kind, nb, nv),
        keeps_range(g, nv),
    ensures
        edit::kind_wf(map_kind(kind, g), nb, nv),
{
    match kind {
        KindView::Phi { incomings } => {
            assert forall|k: int| 0 <= k < incomings.len() implies (#[trigger] map_incomings(
                incomings,
                g,
            )[k]).0.0 < nb && map_incomings(incomings, g)[k].1.0 < nv by {
                assert(incomings[k].0.0 < nb);
            }
        },
        KindView::Gep { base, indices } => {
            assert forall|k: int| 0 <= k < indices.len() implies (#[trigger] indices.map_values(
                g,
            )[k]).0 < nv by {
                assert(indices[k].0 < nv);
            }
        },
        KindView::Call { name, args } => {
            assert forall|k: int| 0 <= k < args.len() implies (#[trigger] args.map_values(
                g,
            )[k]).0 < nv by {
                assert(args[k].0 < nv);
            }
        },
        _ => {},
    }
}

pub proof fn lemma_map_block_wf(
    block: BlockView,
    start: int,
    g: spec_fn(ValueId) -> ValueId,
    nb: nat,
    nv: nat,
)
    requires
        edit::block_wf(block, nb, nv),
        keeps_range(g, nv),
    ensures
        edit::block_wf(map_block(block, start, g), nb, nv),
{
    let mapped = map_block(block, start, g);
    assert forall|i: int| 0 <= i < mapped.insts.len() implies edit::inst_wf(
        #[trigger] mapped.insts[i],
        nb,
        nv,
    ) by {
        assert(edit::inst_wf(block.insts[i], nb, nv));
        lemma_map_kind_wf(block.insts[i].kind, g, nb, nv);
    }
}

pub proof fn lemma_resolver_keeps_range(map: Map<ValueId, ValueId>, fuel: nat, nv: nat)
    requires
        range_below(map, nv),
    ensures
        keeps_range(resolver(map, fuel), nv),
{
    assert forall|v: ValueId| v.0 < nv implies (#[trigger] resolver(map, fuel)(v)).0 < nv by {
        lemma_resolve_in_range(map, v, fuel, nv);
    }
}

/// Replaces the uses of one block from position `start` on, and those of its
/// terminator.
pub fn rewrite_block_uses_from(func: &mut Function, block: BlockId, start: usize, map: &ValueMap)
    requires
        old(func)@.has_block(block),
    ensures
        final(func)@ == old(func)@.with_block(
            block,
            map_block(
                old(func)@.block(block),
                start as int,
                resolver(map@, old(func)@.values.len()),
            ),
        ),
        old(func)@.wf() && range_below(map@, old(func)@.values.len()) ==> final(func)@.wf(),
{
    let fuel = func.values.len();
    let ghost f = func@;
    let ghost g = resolver(map@, fuel as nat);
    let ghost want = map_block(f.block(block), start as int, g);
    let n = func.blocks[block.0].insts.len();
    let mut insts: Vec<Inst> = Vec::new();
    for i in 0..n
        invariant
            func@ == f,
            fuel == f.values.len(),
            g == resolver(map@, fuel as nat),
            want == map_block(f.block(block), start as int, g),
            f.has_block(block),
            n == f.block(block).insts.len(),
            insts.len() == i,
            forall|j: int| 0 <= j < i ==> #[trigger] insts@[j]@ == want.insts[j],
    {
        let inst = &func.blocks[block.0].insts[i];
        assert(inst@ == f.block(block).insts[i as int]);
        if i >= start {
            insts.push(Inst { result: inst.result, kind: resolve_kind(&inst.kind, map, fuel) });
        } else {
            insts.push(inst.clone());
        }
    }
    let terminator = resolve_terminator(&func.blocks[block.0].terminator, map, fuel);
    proof {
        assert(ir::insts_view(insts@) =~= want.insts);
        if f.wf() && range_below(map@, f.values.len()) {
            lemma_resolver_keeps_range(map@, fuel as nat, f.values.len());
            lemma_map_block_wf(f.block(block), start as int, g, f.blocks.len(), f.values.len());
        }
    }
    func.set_insts(block, insts);
    func.put_terminator(block, terminator);
    assert(func@.blocks =~= f.with_block(block, want).blocks);
}

/// Replaces every use in the function.
pub fn rewrite_function_uses(func: &mut Function, map: &ValueMap)
    ensures
        final(func)@ == map_uses(old(func)@, resolver(map@, old(func)@.values.len())),
        old(func)@.wf() && range_below(map@, old(func)@.values.len()) ==> final(func)@.wf(),
{
    let n = func.blocks.len();
    let ghost f = func@;
    let ghost g = resolver(map@, f.values.len());
    for b in 0..n
        invariant
            n == f.blocks.len(),
            g == resolver(map@, f.values.len()),
            func@ == (FuncView { blocks: func@.blocks, ..f }),
            func@.blocks.len() == n,
            forall|j: int| 0 <= j < b ==> #[trigger] func@.blocks[j] == map_block(f.blocks[j], 0, g),
            forall|j: int| b <= j < n ==> #[trigger] func@.blocks[j] == f.blocks[j],
    {
        rewrite_block_uses_from(func, BlockId(b), 0, map);
    }
    assert(func@.blocks =~= map_uses(f, g).blocks);
    proof {
        if f.wf() && range_below(map@, f.values.len()) {
            lemma_resolver_keeps_range(map@, f.values.len(), f.values.len());
            assert forall|b: int| 0 <= b < func@.blocks.len() implies edit::block_wf(
                #[trigger] func@.blocks[b],
                func@.blocks.len(),
                func@.values.len(),
            ) by {
                assert(edit::block_wf(f.blocks[b], f.blocks.len(), f.values.len()));
                lemma_map_block_wf(f.blocks[b], 0, g, f.blocks.len(), f.values.len());
            }
        }
    }
}

} // verus!
