//! The intermediate representation: functions in SSA form, made of basic
//! blocks of instructions, over a flat table of values.
//!
//! Every executable type has a mathematical counterpart (`...View`) in which
//! vectors are sequences and strings are sequences of characters; contracts
//! speak about those.
use vstd::prelude::*;

verus! {

/// Index into [`Function::values`].
#[derive(Clone, Copy, PartialEq, Eq, Structural, Debug)]
pub struct ValueId(pub usize);

/// Index into [`Function::blocks`].
#[derive(Clone, Copy, PartialEq, Eq, Structural, Debug)]
pub struct BlockId(pub usize);

/// Index into [`Module::funcs`].
#[derive(Clone, Copy, PartialEq, Eq, Structural, Debug)]
pub struct FunctionId(pub usize);

#[derive(PartialEq, Eq, Debug)]
pub enum Type {
    Void,
    I1,
    I32,
    F32,
    Ptr(Box<Type>),
    Array { elem: Box<Type>, len: usize },
}

impl Clone for Type {
    fn clone(&self) -> (r: Self)
        ensures
            r == *self,
        decreases self,
    {
        match self {
            Type::Void => Type::Void,
            Type::I1 => Type::I1,
            Type::I32 => Type::I32,
            Type::F32 => Type::F32,
            Type::Ptr(pointee) => Type::Ptr(Box::new((**pointee).clone())),
            Type::Array { elem, len } => Type::Array { elem: Box::new((**elem).clone()), len: *len },
        }
    }
}

impl Type {
    /// Structural equality of types.
    pub fn same(&self, other: &Type) -> (r: bool)
        ensures
            r == (*self == *other),
        decreases self,
    {
        match (self, other) {
            (Type::Void, Type::Void) => true,
            (Type::I1, Type::I1) => true,
            (Type::I32, Type::I32) => true,
            (Type::F32, Type::F32) => true,
            (Type::Ptr(a), Type::Ptr(b)) => (**a).same(&**b),
            (Type::Array { elem: a, len: m }, Type::Array { elem: b, len: n }) => {
                *m == *n && (**a).same(&**b)
            },
            _ => false,
        }
    }
}

/// A compile-time constant. A float is kept as its bit pattern; `Zero` is the
/// all-zero value of its type.
#[derive(PartialEq, Eq, Debug)]
pub enum Const {
    Bool(bool),
    Int(i32),
    Float(u32),
    Zero(Type),
}

impl Clone for Const {
    fn clone(&self) -> (r: Self)
        ensures
            r == *self,
    {
        match self {
            Const::Bool(b) => Const::Bool(*b),
            Const::Int(i) => Const::Int(*i),
            Const::Float(bits) => Const::Float(*bits),
            Const::Zero(ty) => Const::Zero(ty.clone()),
        }
    }
}

pub open spec fn const_type(c: Const) -> Type {
    match c {
        Const::Bool(_) => Type::I1,
        Const::Int(_) => Type::I32,
        Const::Float(_) => Type::F32,
        Const::Zero(ty) => ty,
    }
}

impl Const {
    /// The type of the constant.
    pub fn ty(&self) -> (r: Type)
        ensures
            r == const_type(*self),
    {
        match self {
            Const::Bool(_) => Type::I1,
            Const::Int(_) => Type::I32,
            Const::Float(_) => Type::F32,
            Const::Zero(ty) => ty.clone(),
        }
    }

    /// Structural equality of constants.
    pub fn same(&self, other: &Const) -> (r: bool)
        ensures
            r == (*self == *other),
    {
        match (self, other) {
            (Const::Bool(a), Const::Bool(b)) => *a == *b,
            (Const::Int(a), Const::Int(b)) => *a == *b,
            (Const::Float(a), Const::Float(b)) => *a == *b,
            (Const::Zero(a), Const::Zero(b)) => a.same(b),
            _ => false,
        }
    }
}

#[derive(Clone, Copy, PartialEq, Eq, Structural, Debug)]
pub enum UnaryOp {
    Ineg,
    Fneg,
    Not,
}

#[derive(Clone, Copy, PartialEq, Eq, Structural, Debug)]
pub enum BinaryOp {
    Iadd,
    Isub,
    Imul,
    Idiv,
    Imod,
    Iand,
    Ior,
    Ixor,
    Ishl,
    Iashr,
    And,
    Or,
    Fadd,
    Fsub,
    Fmul,
    Fdiv,
}

#[derive(Clone, Copy, PartialEq, Eq, Structural, Debug)]
pub enum CompareOp {
    Eq,
    Ne,
    Lt,
    Le,
    Gt,
    Ge,
}

#[derive(Clone, Copy, PartialEq, Eq, Structural, Debug)]
pub enum CastOp {
    BoolToI32,
    I32ToBool,
    I32ToF32,
    F32ToI32,
    F32ToBool,
}

/// What a value is: a parameter, a constant, the address of a global, or the
/// result of the instruction at a position of a block.
#[derive(PartialEq, Eq, Debug)]
pub enum ValueKind {
    Param,
    Const(Const),
    Global(String),
    Inst(BlockId, usize),
}

pub enum ValueKindView {
    Param,
    Const(Const),
    Global(Seq<char>),
    Inst(BlockId, usize),
}

impl View for ValueKind {
    type V = ValueKindView;

    open spec fn view(&self) -> ValueKindView {
        match self {
            ValueKind::Param => ValueKindView::Param,
            ValueKind::Const(c) => ValueKindView::Const(*c),
            ValueKind::Global(name) => ValueKindView::Global(name@),
            ValueKind::Inst(b, i) => ValueKindView::Inst(*b, *i),
        }
    }
}

impl Clone for ValueKind {
    fn clone(&self) -> (r: Self)
        ensures
            r@ == self@,
    {
        match self {
            ValueKind::Param => ValueKind::Param,
            ValueKind::Const(c) => ValueKind::Const(c.clone()),
            ValueKind::Global(name) => ValueKind::Global(name.clone()),
            ValueKind::Inst(b, i) => ValueKind::Inst(*b, *i),
        }
    }
}

#[derive(PartialEq, Eq, Debug)]
pub struct Value {
    pub name: Option<String>,
    pub ty: Type,
    pub kind: ValueKind,
}

pub struct ValueView {
    pub name: Option<Seq<char>>,
    pub ty: Type,
    pub kind: ValueKindView,
}

pub open spec fn name_view(name: Option<String>) -> Option<Seq<char>> {
    match name {
        Some(s) => Some(s@),
        None => None,
    }
}

impl View for Value {
    type V = ValueView;

    open spec fn view(&self) -> ValueView {
        ValueView { name: name_view(self.name), ty: self.ty, kind: self.kind@ }
    }
}

impl Clone for Value {
    fn clone(&self) -> (r: Self)
        ensures
            r@ == self@,
    {
        let name = match &self.name {
            Some(s) => Some(s.clone()),
            None => None,
        };
        Value { name, ty: self.ty.clone(), kind: self.kind.clone() }
    }
}

/// The operations. A phi lists one value per predecessor block.
#[derive(PartialEq, Eq, Debug)]
#[allow(inconsistent_fields)]
pub enum InstKind {
    Nop,
    Phi { incomings: Vec<(BlockId, ValueId)> },
    Alloca { ty: Type },
    Load { ptr: ValueId },
    Store { ptr: ValueId, value: ValueId },
    MemZero { ptr: ValueId, bytes: usize, count: Option<ValueId> },
    MemCopy { dst: ValueId, src: ValueId, element_bytes: i32, count: ValueId },
    Unary { op: UnaryOp, value: ValueId },
    Binary { op: BinaryOp, lhs: ValueId, rhs: ValueId },
    ICompare { op: CompareOp, lhs: ValueId, rhs: ValueId },
    FCompare { op: CompareOp, lhs: ValueId, rhs: ValueId },
    Cast { op: CastOp, value: ValueId },
    Gep { base: ValueId, indices: Vec<ValueId> },
    Call { name: String, args: Vec<ValueId> },
}

#[allow(inconsistent_fields)]
pub enum KindView {
    Nop,
    Phi { incomings: Seq<(BlockId, ValueId)> },
    Alloca { ty: Type },
    Load { ptr: ValueId },
    Store { ptr: ValueId, value: ValueId },
    MemZero { ptr: ValueId, bytes: usize, count: Option<ValueId> },
    MemCopy { dst: ValueId, src: ValueId, element_bytes: i32, count: ValueId },
    Unary { op: UnaryOp, value: ValueId },
    Binary { op: BinaryOp, lhs: ValueId, rhs: ValueId },
    ICompare { op: CompareOp, lhs: ValueId, rhs: ValueId },
    FCompare { op: CompareOp, lhs: ValueId, rhs: ValueId },
    Cast { op: CastOp, value: ValueId },
    Gep { base: ValueId, indices: Seq<ValueId> },
    Call { name: Seq<char>, args: Seq<ValueId> },
}

impl View for InstKind {
    type V = KindView;

    open spec fn view(&self) -> KindView {
        match self {
            InstKind::Nop => KindView::Nop,
            InstKind::Phi { incomings } => KindView::Phi { incomings: incomings@ },
            InstKind::Alloca { ty } => KindView::Alloca { ty: *ty },
            InstKind::Load { ptr } => KindView::Load { ptr: *ptr },
            InstKind::Store { ptr, value } => KindView::Store { ptr: *ptr, value: *value },
            InstKind::MemZero { ptr, bytes, count } => KindView::MemZero {
                ptr: *ptr,
                bytes: *bytes,
                count: *count,
            },
            InstKind::MemCopy { dst, src, element_bytes, count } => KindView::MemCopy {
                dst: *dst,
                src: *src,
                element_bytes: *element_bytes,
                count: *count,
            },
            InstKind::Unary { op, value } => KindView::Unary { op: *op, value: *value },
            InstKind::Binary { op, lhs, rhs } => KindView::Binary { op: *op, lhs: *lhs, rhs: *rhs },
            InstKind::ICompare { op, lhs, rhs } => KindView::ICompare {
                op: *op,
                lhs: *lhs,
                rhs: *rhs,
            },
            InstKind::FCompare { op, lhs, rhs } => KindView::FCompare {
                op: *op,
                lhs: *lhs,
                rhs: *rhs,
            },
            InstKind::Cast { op, value } => KindView::Cast { op: *op, value: *value },
            InstKind::Gep { base, indices } => KindView::Gep { base: *base, indices: indices@ },
            InstKind::Call { name, args } => KindView::Call { name: name@, args: args@ },
        }
    }
}

impl Clone for InstKind {
    fn clone(&self) -> (r: Self)
        ensures
            r@ == self@,
    {
        match self {
            InstKind::Nop => InstKind::Nop,
            InstKind::Phi { incomings } => InstKind::Phi { incomings: clone_incomings(incomings) },
            InstKind::Alloca { ty } => InstKind::Alloca { ty: ty.clone() },
            InstKind::Load { ptr } => InstKind::Load { ptr: *ptr },
            InstKind::Store { ptr, value } => InstKind::Store { ptr: *ptr, value: *value },
            InstKind::MemZero { ptr, bytes, count } => InstKind::MemZero {
                ptr: *ptr,
                bytes: *bytes,
                count: *count,
            },
            InstKind::MemCopy { dst, src, element_bytes, count } => InstKind::MemCopy {
                dst: *dst,
                src: *src,
                element_bytes: *element_bytes,
                count: *count,
            },
            InstKind::Unary { op, value } => InstKind::Unary { op: *op, value: *value },
            InstKind::Binary { op, lhs, rhs } => InstKind::Binary { op: *op, lhs: *lhs, rhs: *rhs },
            InstKind::ICompare { op, lhs, rhs } => InstKind::ICompare {
                op: *op,
                lhs: *lhs,
                rhs: *rhs,
            },
            InstKind::FCompare { op, lhs, rhs } => InstKind::FCompare {
                op: *op,
                lhs: *lhs,
                rhs: *rhs,
            },
            InstKind::Cast { op, value } => InstKind::Cast { op: *op, value: *value },
            InstKind::Gep { base, indices } => InstKind::Gep {
                base: *base,
                indices: indices.clone(),
            },
            InstKind::Call { name, args } => InstKind::Call {
                name: name.clone(),
                args: args.clone(),
            },
        }
    }
}

/// A copy of a phi's incoming list.
pub fn clone_incomings(incomings: &Vec<(BlockId, ValueId)>) -> (r: Vec<(BlockId, ValueId)>)
    ensures
        r@ == incomings@,
{
    let mut r: Vec<(BlockId, ValueId)> = Vec::new();
    let n = incomings.len();
    for i in 0..n
        invariant
            n == incomings.len(),
            r@ == incomings@.take(i as int),
    {
        r.push((incomings[i].0, incomings[i].1));
        assert(incomings@.take(i + 1) =~= incomings@.take(i as int).push(incomings@[i as int]));
    }
    assert(incomings@.take(n as int) =~= incomings@);
    r
}

#[derive(PartialEq, Eq, Debug)]
pub struct Inst {
    pub result: Option<ValueId>,
    pub kind: InstKind,
}

pub struct InstView {
    pub result: Option<ValueId>,
    pub kind: KindView,
}

impl View for Inst {
    type V = InstView;

    open spec fn view(&self) -> InstView {
        InstView { result: self.result, kind: self.kind@ }
    }
}

impl Clone for Inst {
    fn clone(&self) -> (r: Self)
        ensures
            r@ == self@,
    {
        Inst { result: self.result, kind: self.kind.clone() }
    }
}

#[derive(Clone, Copy, PartialEq, Eq, Structural, Debug)]
pub enum Terminator {
    Return(Option<ValueId>),
    Jump(BlockId),
    Branch { cond: ValueId, then_target: BlockId, else_target: BlockId },
}

#[derive(PartialEq, Eq, Debug)]
pub struct Block {
    pub name: String,
    pub insts: Vec<Inst>,
    pub terminator: Option<Terminator>,
}

pub struct BlockView {
    pub name: Seq<char>,
    pub insts: Seq<InstView>,
    pub terminator: Option<Terminator>,
}

pub open spec fn insts_view(insts: Seq<Inst>) -> Seq<InstView> {
    insts.map_values(|i: Inst| i@)
}

impl View for Block {
    type V = BlockView;

    open spec fn view(&self) -> BlockView {
        BlockView {
            name: self.name@,
            insts: insts_view(self.insts@),
            terminator: self.terminator,
        }
    }
}

impl Clone for Block {
    fn clone(&self) -> (r: Self)
        ensures
            r@ == self@,
    {
        let mut insts: Vec<Inst> = Vec::new();
        let n = self.insts.len();
        for i in 0..n
            invariant
                n == self.insts.len(),
                insts.len() == i,
                forall|j: int| 0 <= j < i ==> #[trigger] insts@[j]@ == self.insts@[j]@,
        {
            insts.push(self.insts[i].clone());
        }
        assert(insts_view(insts@) =~= insts_view(self.insts@));
        Block { name: self.name.clone(), insts, terminator: self.terminator }
    }
}

#[derive(PartialEq, Eq, Debug)]
pub struct Function {
    pub name: String,
    pub params: Vec<ValueId>,
    pub ret: Type,
    pub entry: BlockId,
    pub blocks: Vec<Block>,
    pub values: Vec<Value>,
    pub recursive_cfg_inline_decided: bool,
    pub reduction_jammed: bool,
}

pub struct FuncView {
    pub name: Seq<char>,
    pub params: Seq<ValueId>,
    pub ret: Type,
    pub entry: BlockId,
    pub blocks: Seq<BlockView>,
    pub values: Seq<ValueView>,
    pub recursive_cfg_inline_decided: bool,
    pub reduction_jammed: bool,
}

pub open spec fn blocks_view(blocks: Seq<Block>) -> Seq<BlockView> {
    blocks.map_values(|b: Block| b@)
}

pub open spec fn values_view(values: Seq<Value>) -> Seq<ValueView> {
    values.map_values(|v: Value| v@)
}

impl View for Function {
    type V = FuncView;

    open spec fn view(&self) -> FuncView {
        FuncView {
            name: self.name@,
            params: self.params@,
            ret: self.ret,
            entry: self.entry,
            blocks: blocks_view(self.blocks@),
            values: values_view(self.values@),
            recursive_cfg_inline_decided: self.recursive_cfg_inline_decided,
            reduction_jammed: self.reduction_jammed,
        }
    }
}

impl Clone for Function {
    fn clone(&self) -> (r: Self)
        ensures
            r@ == self@,
    {
        let mut blocks: Vec<Block> = Vec::new();
        let n = self.blocks.len();
        for i in 0..n
            invariant
                n == self.blocks.len(),
                blocks.len() == i,
                forall|j: int| 0 <= j < i ==> #[trigger] blocks@[j]@ == self.blocks@[j]@,
        {
            blocks.push(self.blocks[i].clone());
        }
        assert(blocks_view(blocks@) =~= blocks_view(self.blocks@));
        let mut values: Vec<Value> = Vec::new();
        let m = self.values.len();
        for i in 0..m
            invariant
                m == self.values.len(),
                values.len() == i,
                forall|j: int| 0 <= j < i ==> #[trigger] values@[j]@ == self.values@[j]@,
        {
            values.push(self.values[i].clone());
        }
        assert(values_view(values@) =~= values_view(self.values@));
        Function {
            name: self.name.clone(),
            params: self.params.clone(),
            ret: self.ret.clone(),
            entry: self.entry,
            blocks,
            values,
            recursive_cfg_inline_decided: self.recursive_cfg_inline_decided,
            reduction_jammed: self.reduction_jammed,
        }
    }
}

#[derive(PartialEq, Eq, Debug)]
pub struct Global {
    pub name: String,
    pub ty: Type,
    pub is_const: bool,
    pub init: Option<Const>,
}

pub struct GlobalView {
    pub name: Seq<char>,
    pub ty: Type,
    pub is_const: bool,
    pub init: Option<Const>,
}

impl View for Global {
    type V = GlobalView;

    open spec fn view(&self) -> GlobalView {
        GlobalView { name: self.name@, ty: self.ty, is_const: self.is_const, init: self.init }
    }
}

impl Clone for Global {
    fn clone(&self) -> (r: Self)
        ensures
            r@ == self@,
    {
        let init = match &self.init {
            Some(c) => Some(c.clone()),
            None => None,
        };
        Global { name: self.name.clone(), ty: self.ty.clone(), is_const: self.is_const, init }
    }
}

#[derive(PartialEq, Eq, Debug)]
pub struct Module {
    pub globals: Vec<Global>,
    pub funcs: Vec<Function>,
}

pub struct ModuleView {
    pub globals: Seq<GlobalView>,
    pub funcs: Seq<FuncView>,
}

pub open spec fn funcs_view(funcs: Seq<Function>) -> Seq<FuncView> {
    funcs.map_values(|f: Function| f@)
}

pub open spec fn globals_view(globals: Seq<Global>) -> Seq<GlobalView> {
    globals.map_values(|g: Global| g@)
}

impl View for Module {
    type V = ModuleView;

    open spec fn view(&self) -> ModuleView {
        ModuleView { globals: globals_view(self.globals@), funcs: funcs_view(self.funcs@) }
    }
}

/// A copy of every function.
pub fn clone_funcs(funcs: &Vec<Function>) -> (r: Vec<Function>)
    ensures
        funcs_view(r@) == funcs_view(funcs@),
{
    let mut r: Vec<Function> = Vec::new();
    let n = funcs.len();
    for i in 0..n
        invariant
            n == funcs.len(),
            r.len() == i,
                forall|j: int| 0 <= j < i ==> #[trigger] r@[j]@ == funcs@[j]@,
    {
        r.push(funcs[i].clone());
    }
    assert(funcs_view(r@) =~= funcs_view(funcs@));
    r
}

impl Clone for Module {
    fn clone(&self) -> (r: Self)
        ensures
            r@ == self@,
    {
        let mut globals: Vec<Global> = Vec::new();
        let n = self.globals.len();
        for i in 0..n
            invariant
                n == self.globals.len(),
                globals.len() == i,
                forall|j: int| 0 <= j < i ==> #[trigger] globals@[j]@ == self.globals@[j]@,
        {
            globals.push(self.globals[i].clone());
        }
        assert(globals_view(globals@) =~= globals_view(self.globals@));
        Module { globals, funcs: clone_funcs(&self.funcs) }
    }
}

impl Module {
    /// An empty module.
    pub fn new() -> (r: Self)
        ensures
            r@.globals == Seq::<GlobalView>::empty(),
            r@.funcs == Seq::<FuncView>::empty(),
    {
        Module { globals: Vec::new(), funcs: Vec::new() }
    }

    /// Appends a function.
    pub fn add_func(&mut self, func: Function)
        ensures
            final(self)@ == (ModuleView { funcs: old(self)@.funcs.push(func@), ..old(self)@ }),
    {
        self.funcs.push(func);
        assert(self@.funcs =~= old(self)@.funcs.push(func@));
    }
}

} // verus!
