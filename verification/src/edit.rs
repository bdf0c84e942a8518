//! Reading and building functions: the elementary edits that every pass is
//! made of, each with its effect on the mathematical view of the function.
use vstd::prelude::*;

use crate::ir;
use crate::ir::{
    Block, BlockId, BlockView, Const, FuncView, Function, Inst, InstKind, InstView, KindView,
    ModuleView, Terminator, Type, Value, ValueId, ValueKind, ValueKindView, ValueView,
};

verus! {

// ---------------------------------------------------------------------------
// Operands and successors
// ---------------------------------------------------------------------------

/// The values that an operation reads, in order.
pub open spec fn operands(kind: KindView) -> Seq<ValueId> {
    match kind {
        KindView::Nop => Seq::empty(),
        KindView::Alloca { .. } => Seq::empty(),
        KindView::Phi { incomings } => incomings.map_values(|inc: (BlockId, ValueId)| inc.1),
        KindView::Load { ptr } => seq![ptr],
        KindView::Store { ptr, value } => seq![ptr, value],
        KindView::MemZero { ptr, bytes: _, count } => match count {
            Some(count) => seq![ptr, count],
            None => seq![ptr],
        },
        KindView::MemCopy { dst, src, element_bytes: _, count } => seq![dst, src, count],
        KindView::Unary { op: _, value } => seq![value],
        KindView::Cast { op: _, value } => seq![value],
        KindView::Binary { op: _, lhs, rhs } => seq![lhs, rhs],
        KindView::ICompare { op: _, lhs, rhs } => seq![lhs, rhs],
        KindView::FCompare { op: _, lhs, rhs } => seq![lhs, rhs],
        KindView::Gep { base, indices } => seq![base] + indices,
        KindView::Call { name: _, args } => args,
    }
}

/// The values that a terminator reads.
pub open spec fn terminator_reads(terminator: Option<Terminator>) -> Seq<ValueId> {
    match terminator {
        Some(Terminator::Return(Some(value))) => seq![value],
        Some(Terminator::Branch { cond, .. }) => seq![cond],
        _ => Seq::empty(),
    }
}

/// The blocks that a terminator names, in order.
pub open spec fn successors(terminator: Option<Terminator>) -> Seq<BlockId> {
    match terminator {
        Some(Terminator::Jump(target)) => seq![target],
        Some(Terminator::Branch { cond: _, then_target, else_target }) => seq![
            then_target,
            else_target,
        ],
        _ => Seq::empty(),
    }
}

/// Lists the values that an operation reads.
pub fn inst_operands(kind: &InstKind) -> (r: Vec<ValueId>)
    ensures
        r@ == operands(kind@),
{
    match kind {
        InstKind::Nop => Vec::new(),
        InstKind::Alloca { .. } => Vec::new(),
        InstKind::Phi { incomings } => {
            let mut r: Vec<ValueId> = Vec::new();
            let n = incomings.len();
            for i in 0..n
                invariant
                    n == incomings.len(),
                    r.len() == i,
                    forall|j: int| 0 <= j < i ==> #[trigger] r@[j] == incomings@[j].1,
            {
                r.push(incomings[i].1);
            }
            assert(r@ =~= operands(kind@));
            r
        },
        InstKind::Load { ptr } => vec![*ptr],
        InstKind::Store { ptr, value } => vec![*ptr, *value],
        InstKind::MemZero { ptr, bytes: _, count } => match count {
            Some(count) => vec![*ptr, *count],
            None => vec![*ptr],
        },
        InstKind::MemCopy { dst, src, element_bytes: _, count } => vec![*dst, *src, *count],
        InstKind::Unary { op: _, value } => vec![*value],
        InstKind::Cast { op: _, value } => vec![*value],
        InstKind::Binary { op: _, lhs, rhs } => vec![*lhs, *rhs],
        InstKind::ICompare { op: _, lhs, rhs } => vec![*lhs, *rhs],
        InstKind::FCompare { op: _, lhs, rhs } => vec![*lhs, *rhs],
        InstKind::Gep { base, indices } => {
            let mut r: Vec<ValueId> = Vec::new();
            r.push(*base);
            let n = indices.len();
            for i in 0..n
                invariant
                    n == indices.len(),
                    r@ == seq![*base] + indices@.take(i as int),
            {
                r.push(indices[i]);
                assert(r@ =~= seq![*base] + indices@.take(i + 1));
            }
            assert(indices@.take(n as int) =~= indices@);
            r
        },
        InstKind::Call { name: _, args } => args.clone(),
    }
}

/// Lists the values that a terminator reads.
pub fn terminator_operands(terminator: &Option<Terminator>) -> (r: Vec<ValueId>)
    ensures
        r@ == terminator_reads(*terminator),
{
    match terminator {
        Some(Terminator::Return(Some(value))) => vec![*value],
        Some(Terminator::Branch { cond, .. }) => vec![*cond],
        _ => Vec::new(),
    }
}

// ---------------------------------------------------------------------------
// Well-formedness: every id is in range
// ---------------------------------------------------------------------------

pub open spec fn incomings_wf(incomings: Seq<(BlockId, ValueId)>, nb: nat, nv: nat) -> bool {
    forall|k: int|
        0 <= k < incomings.len() ==> (#[trigger] incomings[k]).0.0 < nb && incomings[k].1.0 < nv
}

pub open spec fn reads_wf(reads: Seq<ValueId>, nv: nat) -> bool {
    forall|k: int| 0 <= k < reads.len() ==> (#[trigger] reads[k]).0 < nv
}

pub open spec fn kind_wf(kind: KindView, nb: nat, nv: nat) -> bool {
    match kind {
        KindView::Nop => true,
        KindView::Alloca { .. } => true,
        KindView::Phi { incomings } => incomings_wf(incomings, nb, nv),
        KindView::Load { ptr } => ptr.0 < nv,
        KindView::Store { ptr, value } => ptr.0 < nv && value.0 < nv,
        KindView::MemZero { ptr, bytes: _, count } => ptr.0 < nv && match count {
            Some(count) => count.0 < nv,
            None => true,
        },
        KindView::MemCopy { dst, src, element_bytes: _, count } => dst.0 < nv && src.0 < nv
            && count.0 < nv,
        KindView::Unary { op: _, value } => value.0 < nv,
        KindView::Cast { op: _, value } => value.0 < nv,
        KindView::Binary { op: _, lhs, rhs } => lhs.0 < nv && rhs.0 < nv,
        KindView::ICompare { op: _, lhs, rhs } => lhs.0 < nv && rhs.0 < nv,
        KindView::FCompare { op: _, lhs, rhs } => lhs.0 < nv && rhs.0 < nv,
        KindView::Gep { base, indices } => base.0 < nv && reads_wf(indices, nv),
        KindView::Call { name: _, args } => reads_wf(args, nv),
    }
}

pub open spec fn inst_wf(inst: InstView, nb: nat, nv: nat) -> bool {
    &&& kind_wf(inst.kind, nb, nv)
    &&& (inst.result matches Some(v) ==> v.0 < nv)
}

pub open spec fn insts_wf(insts: Seq<InstView>, nb: nat, nv: nat) -> bool {
    forall|i: int| 0 <= i < insts.len() ==> inst_wf(#[trigger] insts[i], nb, nv)
}

pub open spec fn terminator_wf(terminator: Option<Terminator>, nb: nat, nv: nat) -> bool {
    match terminator {
        None => true,
        Some(Terminator::Return(None)) => true,
        Some(Terminator::Return(Some(value))) => value.0 < nv,
        Some(Terminator::Jump(target)) => target.0 < nb,
        Some(Terminator::Branch { cond, then_target, else_target }) => cond.0 < nv
            && then_target.0 < nb && else_target.0 < nb,
    }
}

pub open spec fn block_wf(block: BlockView, nb: nat, nv: nat) -> bool {
    &&& insts_wf(block.insts, nb, nv)
    &&& terminator_wf(block.terminator, nb, nv)
}

pub open spec fn value_wf(value: ValueView, nb: nat) -> bool {
    value.kind matches ValueKindView::Inst(b, _) ==> b.0 < nb
}

impl FuncView {
    /// Every block id and value id that occurs names a block or a value.
    pub open spec fn wf(self) -> bool {
        &&& self.entry.0 < self.blocks.len()
        &&& forall|b: int|
            0 <= b < self.blocks.len() ==> block_wf(
                #[trigger] self.blocks[b],
                self.blocks.len(),
                self.values.len(),
            )
        &&& forall|v: int|
            0 <= v < self.values.len() ==> value_wf(#[trigger] self.values[v], self.blocks.len())
        &&& forall|p: int|
            0 <= p < self.params.len() ==> (#[trigger] self.params[p]).0 < self.values.len()
    }

    // -- reading --------------------------------------------------------
    pub open spec fn has_block(self, b: BlockId) -> bool {
        b.0 < self.blocks.len()
    }

    pub open spec fn has_value(self, v: ValueId) -> bool {
        v.0 < self.values.len()
    }

    pub open spec fn has_inst(self, b: BlockId, i: int) -> bool {
        b.0 < self.blocks.len() && 0 <= i < self.blocks[b.0 as int].insts.len()
    }

    pub open spec fn block(self, b: BlockId) -> BlockView {
        self.blocks[b.0 as int]
    }

    pub open spec fn value(self, v: ValueId) -> ValueView {
        self.values[v.0 as int]
    }

    pub open spec fn inst(self, b: BlockId, i: int) -> InstView {
        self.blocks[b.0 as int].insts[i]
    }

    pub open spec fn terminator(self, b: BlockId) -> Option<Terminator> {
        self.blocks[b.0 as int].terminator
    }

    // -- editing --------------------------------------------------------
    pub open spec fn with_block(self, b: BlockId, block: BlockView) -> FuncView {
        FuncView { blocks: self.blocks.update(b.0 as int, block), ..self }
    }

    pub open spec fn with_insts(self, b: BlockId, insts: Seq<InstView>) -> FuncView {
        self.with_block(b, BlockView { insts, ..self.block(b) })
    }

    pub open spec fn with_inst(self, b: BlockId, i: int, inst: InstView) -> FuncView {
        self.with_insts(b, self.block(b).insts.update(i, inst))
    }

    pub open spec fn with_terminator(self, b: BlockId, terminator: Option<Terminator>) -> FuncView {
        self.with_block(b, BlockView { terminator, ..self.block(b) })
    }

    pub open spec fn with_value_kind(self, v: ValueId, kind: ValueKindView) -> FuncView {
        FuncView {
            values: self.values.update(v.0 as int, ValueView { kind, ..self.value(v) }),
            ..self
        }
    }

    /// The id that the next added value gets.
    pub open spec fn next_value(self) -> ValueId {
        ValueId(self.values.len() as usize)
    }

    /// The id that the next added block gets.
    pub open spec fn next_block(self) -> BlockId {
        BlockId(self.blocks.len() as usize)
    }

    pub open spec fn add_value(self, value: ValueView) -> FuncView {
        FuncView { values: self.values.push(value), ..self }
    }

    pub open spec fn add_block(self, name: Seq<char>) -> FuncView {
        FuncView {
            blocks: self.blocks.push(
                BlockView { name, insts: Seq::empty(), terminator: None },
            ),
            ..self
        }
    }

    pub open spec fn add_const(self, constant: Const) -> FuncView {
        self.add_value(
            ValueView {
                name: None,
                ty: ir::const_type(constant),
                kind: ValueKindView::Const(constant),
            },
        )
    }

    pub open spec fn add_global_ref(self, name: Seq<char>, ty: Type) -> FuncView {
        self.add_value(ValueView { name: None, ty, kind: ValueKindView::Global(name) })
    }

    /// Appends an instruction that defines the next value.
    pub open spec fn append(self, b: BlockId, kind: KindView, ty: Type) -> FuncView {
        FuncView {
            values: self.values.push(
                ValueView {
                    name: None,
                    ty,
                    kind: ValueKindView::Inst(b, self.block(b).insts.len() as usize),
                },
            ),
            ..self.with_insts(
                b,
                self.block(b).insts.push(InstView { result: Some(self.next_value()), kind }),
            )
        }
    }

    /// Appends an instruction without a result.
    pub open spec fn append_effect(self, b: BlockId, kind: KindView) -> FuncView {
        self.with_insts(b, self.block(b).insts.push(InstView { result: None, kind }))
    }

    /// Inserts an instruction before position `i`; the definitions behind it
    /// move one place down.
    pub open spec fn insert(self, b: BlockId, i: int, kind: KindView, ty: Option<Type>) -> FuncView {
        let shifted = shift_definitions(self.values, b, i);
        FuncView {
            values: match ty {
                Some(ty) => shifted.push(
                    ValueView { name: None, ty, kind: ValueKindView::Inst(b, i as usize) },
                ),
                None => shifted,
            },
            ..self.with_insts(
                b,
                self.block(b).insts.insert(
                    i,
                    InstView {
                        result: match ty {
                            Some(_) => Some(self.next_value()),
                            None => None,
                        },
                        kind,
                    },
                ),
            )
        }
    }
}

impl ModuleView {
    /// Every function is well formed.
    pub open spec fn wf(self) -> bool {
        forall|k: int| 0 <= k < self.funcs.len() ==> (#[trigger] self.funcs[k]).wf()
    }
}

/// Every definition of `b` at or behind position `i`, one place further down.
pub open spec fn shift_definitions(values: Seq<ValueView>, b: BlockId, i: int) -> Seq<ValueView> {
    values.map_values(
        |value: ValueView|
            match value.kind {
                ValueKindView::Inst(owner, at) => if owner == b && i <= at < usize::MAX {
                    ValueView { kind: ValueKindView::Inst(owner, (at + 1) as usize), ..value }
                } else {
                    value
                },
                _ => value,
            },
    )
}

/// The instruction that is left where one was deleted.
pub open spec fn nop() -> InstView {
    InstView { result: None, kind: KindView::Nop }
}

// ---------------------------------------------------------------------------
// Executable edits
// ---------------------------------------------------------------------------

impl Function {
    /// A function with an empty entry block.
    pub fn new(name: &str, ret: Type) -> (r: Self)
        ensures
            r@ == (FuncView {
                name: name@,
                params: Seq::empty(),
                ret,
                entry: BlockId(0),
                blocks: seq![
                    BlockView { name: "entry"@, insts: Seq::empty(), terminator: None },
                ],
                values: Seq::empty(),
                recursive_cfg_inline_decided: false,
                reduction_jammed: false,
            }),
            r@.wf(),
    {
        let entry = Block { name: "entry".to_owned(), insts: Vec::new(), terminator: None };
        let mut blocks: Vec<Block> = Vec::new();
        blocks.push(entry);
        let r = Function {
            name: name.to_owned(),
            params: Vec::new(),
            ret,
            entry: BlockId(0),
            blocks,
            values: Vec::new(),
            recursive_cfg_inline_decided: false,
            reduction_jammed: false,
        };
        assert(r@.blocks[0].insts =~= Seq::<InstView>::empty());
        assert(r@.blocks =~= seq![
            BlockView { name: "entry"@, insts: Seq::empty(), terminator: None },
        ]);
        assert(r@.values =~= Seq::<ValueView>::empty());
        r
    }

    /// The value with the given id.
    pub fn value(&self, id: ValueId) -> (r: &Value)
        requires
            self@.has_value(id),
        ensures
            r@ == self@.value(id),
    {
        &self.values[id.0]
    }

    /// The block with the given id.
    pub fn block(&self, id: BlockId) -> (r: &Block)
        requires
            self@.has_block(id),
        ensures
            r@ == self@.block(id),
    {
        &self.blocks[id.0]
    }

    /// Adds a value to the table.
    pub fn push_value(&mut self, value: Value) -> (r: ValueId)
        ensures
            r == old(self)@.next_value(),
            final(self)@ == old(self)@.add_value(value@),
            old(self)@.wf() && value_wf(value@, old(self)@.blocks.len()) ==> final(self)@.wf(),
    {
        let id = ValueId(self.values.len());
        self.values.push(value);
        assert(self@.values =~= old(self)@.values.push(value@));
        id
    }

    /// Adds a parameter.
    pub fn add_param(&mut self, name: &str, ty: Type) -> (r: ValueId)
        ensures
            r == old(self)@.next_value(),
            final(self)@ == (FuncView {
                params: old(self)@.params.push(r),
                ..old(self)@.add_value(
                    ValueView { name: Some(name@), ty, kind: ValueKindView::Param },
                )
            }),
            old(self)@.wf() ==> final(self)@.wf(),
    {
        let id = self.push_value(Value { name: Some(name.to_owned()), ty, kind: ValueKind::Param });
        self.params.push(id);
        id
    }

    /// Adds a constant.
    pub fn add_const(&mut self, constant: Const) -> (r: ValueId)
        ensures
            r == old(self)@.next_value(),
            final(self)@ == old(self)@.add_const(constant),
            old(self)@.wf() ==> final(self)@.wf(),
    {
        let ty = constant.ty();
        self.push_value(Value { name: None, ty, kind: ValueKind::Const(constant) })
    }

    /// Adds a reference to a global.
    pub fn add_global_ref(&mut self, name: &str, ty: Type) -> (r: ValueId)
        ensures
            r == old(self)@.next_value(),
            final(self)@ == old(self)@.add_global_ref(name@, ty),
            old(self)@.wf() ==> final(self)@.wf(),
    {
        self.push_value(Value { name: None, ty, kind: ValueKind::Global(name.to_owned()) })
    }

    /// Adds an empty block without a terminator.
    pub fn add_block(&mut self, name: &str) -> (r: BlockId)
        ensures
            r == old(self)@.next_block(),
            final(self)@ == old(self)@.add_block(name@),
            old(self)@.wf() ==> final(self)@.wf(),
    {
        let id = BlockId(self.blocks.len());
        self.blocks.push(Block { name: name.to_owned(), insts: Vec::new(), terminator: None });
        assert(self@.blocks.last().insts =~= Seq::<InstView>::empty());
        assert(self@.blocks =~= old(self)@.add_block(name@).blocks);
        id
    }

    /// Sets the terminator of a block.
    pub fn set_terminator(&mut self, block: BlockId, terminator: Terminator)
        requires
            old(self)@.has_block(block),
        ensures
            final(self)@ == old(self)@.with_terminator(block, Some(terminator)),
            old(self)@.wf() && terminator_wf(
                Some(terminator),
                old(self)@.blocks.len(),
                old(self)@.values.len(),
            ) ==> final(self)@.wf(),
    {
        self.blocks[block.0].terminator = Some(terminator);
        assert(self@.blocks =~= old(self)@.with_terminator(block, Some(terminator)).blocks);
    }

    /// Sets or removes the terminator of a block.
    pub fn put_terminator(&mut self, block: BlockId, terminator: Option<Terminator>)
        requires
            old(self)@.has_block(block),
        ensures
            final(self)@ == old(self)@.with_terminator(block, terminator),
            old(self)@.wf() && terminator_wf(
                terminator,
                old(self)@.blocks.len(),
                old(self)@.values.len(),
            ) ==> final(self)@.wf(),
    {
        self.blocks[block.0].terminator = terminator;
        assert(self@.blocks =~= old(self)@.with_terminator(block, terminator).blocks);
    }

    /// Replaces one instruction.
    pub fn set_inst(&mut self, block: BlockId, index: usize, inst: Inst)
        requires
            old(self)@.has_inst(block, index as int),
        ensures
            final(self)@ == old(self)@.with_inst(block, index as int, inst@),
            old(self)@.wf() && inst_wf(inst@, old(self)@.blocks.len(), old(self)@.values.len())
                ==> final(self)@.wf(),
    {
        self.blocks[block.0].insts[index] = inst;
        assert(self@.block(block).insts =~= old(self)@.block(block).insts.update(
            index as int,
            inst@,
        ));
        assert(self@.blocks =~= old(self)@.with_inst(block, index as int, inst@).blocks);
    }

    /// Replaces the instructions of a block.
    pub fn set_insts(&mut self, block: BlockId, insts: Vec<Inst>)
        requires
            old(self)@.has_block(block),
        ensures
            final(self)@ == old(self)@.with_insts(block, ir::insts_view(insts@)),
            old(self)@.wf() && insts_wf(
                ir::insts_view(insts@),
                old(self)@.blocks.len(),
                old(self)@.values.len(),
            ) ==> final(self)@.wf(),
    {
        self.blocks[block.0].insts = insts;
        assert(self@.blocks =~= old(self)@.with_insts(block, ir::insts_view(insts@)).blocks);
    }

    /// Deletes one instruction, leaving an empty slot.
    pub fn clear_inst(&mut self, block: BlockId, index: usize)
        requires
            old(self)@.has_inst(block, index as int),
        ensures
            final(self)@ == old(self)@.with_inst(block, index as int, nop()),
            old(self)@.wf() ==> final(self)@.wf(),
    {
        self.set_inst(block, index, Inst { result: None, kind: InstKind::Nop });
    }

    /// Appends an instruction; it defines a value when a type is given.
    pub fn append_inst(&mut self, block: BlockId, kind: InstKind, ty: Option<Type>) -> (r: Option<
        ValueId,
    >)
        requires
            old(self)@.has_block(block),
        ensures
            match ty {
                Some(ty) => r == Some(old(self)@.next_value()) && final(self)@ == old(
                    self,
                )@.append(block, kind@, ty),
                None => r is None && final(self)@ == old(self)@.append_effect(block, kind@),
            },
            old(self)@.wf() && kind_wf(kind@, old(self)@.blocks.len(), old(self)@.values.len())
                ==> final(self)@.wf(),
    {
        match ty {
            Some(ty) => Some(self.append_value(block, kind, ty)),
            None => {
                self.append_effect(block, kind);
                None
            },
        }
    }

    /// Appends an instruction that defines a value.
    pub fn append_value(&mut self, block: BlockId, kind: InstKind, ty: Type) -> (r: ValueId)
        requires
            old(self)@.has_block(block),
        ensures
            r == old(self)@.next_value(),
            final(self)@ == old(self)@.append(block, kind@, ty),
            old(self)@.wf() && kind_wf(kind@, old(self)@.blocks.len(), old(self)@.values.len())
                ==> final(self)@.wf(),
    {
        let id = ValueId(self.values.len());
        let at = self.blocks[block.0].insts.len();
        self.values.push(Value { name: None, ty, kind: ValueKind::Inst(block, at) });
        self.blocks[block.0].insts.push(Inst { result: Some(id), kind });
        let ghost want = old(self)@.append(block, kind@, ty);
        assert(self@.values =~= want.values);
        assert(self@.block(block).insts =~= want.block(block).insts);
        assert(self@.blocks =~= want.blocks);
        proof {
            assert(self.values.len() == old(self)@.values.len() + 1);
            if old(self)@.wf() && kind_wf(kind@, old(self)@.blocks.len(), old(self)@.values.len()) {
                lemma_append_wf(old(self)@, block, kind@, ty);
            }
        }
        id
    }

    /// Appends an instruction without a result.
    pub fn append_effect(&mut self, block: BlockId, kind: InstKind)
        requires
            old(self)@.has_block(block),
        ensures
            final(self)@ == old(self)@.append_effect(block, kind@),
            old(self)@.wf() && kind_wf(kind@, old(self)@.blocks.len(), old(self)@.values.len())
                ==> final(self)@.wf(),
    {
        self.blocks[block.0].insts.push(Inst { result: None, kind });
        let ghost want = old(self)@.append_effect(block, kind@);
        assert(self@.block(block).insts =~= want.block(block).insts);
        assert(self@.blocks =~= want.blocks);
    }

    /// Inserts an instruction before a position; it defines a value when a
    /// type is given.
    pub fn insert_inst(
        &mut self,
        block: BlockId,
        index: usize,
        kind: InstKind,
        ty: Option<Type>,
    ) -> (r: Option<ValueId>)
        requires
            old(self)@.has_block(block),
            index <= old(self)@.block(block).insts.len(),
        ensures
            r == (match ty {
                Some(_) => Some(old(self)@.next_value()),
                None => None,
            }),
            final(self)@ == old(self)@.insert(block, index as int, kind@, ty),
            old(self)@.wf() && kind_wf(kind@, old(self)@.blocks.len(), old(self)@.values.len())
                ==> final(self)@.wf(),
    {
        let n = self.values.len();
        let ghost before = self@;
        for v in 0..n
            invariant
                n == self.values.len(),
                n == before.values.len(),
                self@ == (FuncView { values: self@.values, ..before }),
                forall|w: int|
                    0 <= w < v ==> #[trigger] self@.values[w] == shift_definitions(
                        before.values,
                        block,
                        index as int,
                    )[w],
                forall|w: int| v <= w < n ==> #[trigger] self@.values[w] == before.values[w],
        {
            let ghost prev = self@;
            assert(prev.values[v as int] == before.values[v as int]);
            if let ValueKind::Inst(owner, at) = self.values[v].kind {
                if owner == block && at >= index && at < usize::MAX {
                    self.values[v].kind = ValueKind::Inst(owner, at + 1);
                }
            }
            assert(self@.values =~= prev.values.update(
                v as int,
                shift_definitions(before.values, block, index as int)[v as int],
            ));
        }
        assert(self@.values =~= shift_definitions(before.values, block, index as int));
        let mut result: Option<ValueId> = None;
        if let Some(ty) = ty {
            result = Some(ValueId(n));
            self.values.push(Value { name: None, ty, kind: ValueKind::Inst(block, index) });
        }
        self.blocks[block.0].insts.insert(index, Inst { result, kind });
        let ghost want = before.insert(block, index as int, kind@, ty);
        assert(self@.values =~= want.values);
        assert(self@.block(block).insts =~= want.block(block).insts);
        assert(self@.blocks =~= want.blocks);
        result
    }

    pub fn has_recursive_cfg_inline_decision(&self) -> (r: bool)
        ensures
            r == self@.recursive_cfg_inline_decided,
    {
        self.recursive_cfg_inline_decided
    }

    pub fn mark_recursive_cfg_inline_decision(&mut self)
        ensures
            final(self)@ == (FuncView { recursive_cfg_inline_decided: true, ..old(self)@ }),
            old(self)@.wf() ==> final(self)@.wf(),
    {
        self.recursive_cfg_inline_decided = true;
    }

    pub fn has_reduction_jam(&self) -> (r: bool)
        ensures
            r == self@.reduction_jammed,
    {
        self.reduction_jammed
    }

    pub fn mark_reduction_jammed(&mut self)
        ensures
            final(self)@ == (FuncView { reduction_jammed: true, ..old(self)@ }),
            old(self)@.wf() ==> final(self)@.wf(),
    {
        self.reduction_jammed = true;
    }
}

/// Appending an instruction over known values keeps every id in range.
pub proof fn lemma_append_wf(f: FuncView, b: BlockId, kind: KindView, ty: Type)
    requires
        f.wf(),
        f.has_block(b),
        f.values.len() < usize::MAX,
        kind_wf(kind, f.blocks.len(), f.values.len()),
    ensures
        f.append(b, kind, ty).wf(),
{
    let g = f.append(b, kind, ty);
    assert forall|k: int| 0 <= k < g.blocks.len() implies block_wf(
        #[trigger] g.blocks[k],
        g.blocks.len(),
        g.values.len(),
    ) by {
        assert(block_wf(f.blocks[k], f.blocks.len(), f.values.len()));
    }
}

} // verus!
