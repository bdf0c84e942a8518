//! Functions that scale their argument by a power of two that another argument
//! selects.
//!
//! A function of an input and a selector that compares the selector with one
//! constant after the other, and returns the input times, or divided by, two to
//! the power of the selector, gets a fast path: a single shift.
use vstd::arithmetic::power2::{lemma_pow2_pos, pow2};
use vstd::prelude::*;

use crate::bits;
use crate::bits::power_of_two_shift;
use crate::cfg;
use crate::emit;
use crate::emit::{emit, emit_binary, emit_boolean, emit_comparison, end_branch, end_return, new_block};
use crate::ir;
use crate::ir::{
    BinaryOp, Block, BlockId, BlockView, CompareOp, Const, FuncView, Function, Inst, InstKind,
    KindView, Module, ModuleView, Terminator, Type, Value, ValueId, ValueKind, ValueKindView,
    ValueView,
};
use crate::pass::edges;
use crate::pass::edges::rename_preds;
use crate::pass::range_integer;
use crate::patterns;
use crate::patterns::{as_binary, as_branch, as_compare};
use crate::query;
use crate::query::has_type;
use crate::util;
use crate::util::{const_i32, defining_block, get_or_add_i32_const};
use crate::verify;
use crate::verify::contains_block;

verus! {

pub const MAX_BLOCKS: usize = 128;

pub const MAX_VALUES: usize = 2048;

/// The number of bits of an integer.
pub const KEYS: usize = 32;

/// How the input is scaled.
#[derive(Clone, Copy, PartialEq, Eq, Structural, Debug)]
pub enum ScaleKind {
    Left,
    SignedDivide,
}

/// A function that scales its input.
#[derive(Clone, Copy, PartialEq, Eq, Structural, Debug)]
pub struct Candidate {
    pub input: ValueId,
    pub selector: ValueId,
    pub minimum: i32,
    pub maximum: i32,
    pub kind: ScaleKind,
}

/// What a function returns.
#[derive(Clone, Copy, PartialEq, Eq, Structural, Debug)]
pub enum ReturnExpr {
    Input,
    Scale { kind: ScaleKind, shift: u32 },
}

// ---------------------------------------------------------------------------
// Mathematical model: recognition
// ---------------------------------------------------------------------------

/// The instruction computes with scalars only, and does not shift.
pub open spec fn is_plain(kind: KindView) -> bool {
    match kind {
        KindView::Nop => true,
        KindView::Unary { .. } => true,
        KindView::Binary { op, .. } => !(op is Ishl || op is Iashr),
        KindView::ICompare { .. } => true,
        KindView::Cast { .. } => true,
        _ => false,
    }
}

pub open spec fn all_plain(f: FuncView) -> bool {
    forall|b: BlockId, i: int| f.has_inst(b, i) ==> is_plain((#[trigger] f.inst(b, i)).kind)
}

/// The condition compares the selector with a constant: whether it holds where
/// they are equal, and the constant.
pub open spec fn selector_test_of(f: FuncView, v: ValueId, selector: ValueId) -> Option<(bool, i32)> {
    match patterns::compare_of(f, v) {
        Some((op, lhs, rhs)) => if op is Eq || op is Ne {
            if lhs == selector {
                match util::const_i32_of(f, rhs) {
                    Some(key) => Some((op is Eq, key)),
                    None => None,
                }
            } else if rhs == selector {
                match util::const_i32_of(f, lhs) {
                    Some(key) => Some((op is Eq, key)),
                    None => None,
                }
            } else {
                None
            }
        } else {
            None
        },
        None => None,
    }
}

/// The constants that the branches of the first `n` blocks compare the selector
/// with; nothing where a branch does anything else.
pub open spec fn keys_below(f: FuncView, selector: ValueId, n: int) -> Option<Seq<bool>>
    decreases n,
{
    if n <= 0 {
        Some(Seq::new(KEYS as nat, |k: int| false))
    } else {
        match keys_below(f, selector, n - 1) {
            None => None,
            Some(keys) => match patterns::branch_of(f, BlockId((n - 1) as usize)) {
                None => Some(keys),
                Some((cond, _, _)) => match selector_test_of(f, cond, selector) {
                    Some((_, key)) => if 0 <= key < KEYS {
                        Some(keys.update(key as int, true))
                    } else {
                        None
                    },
                    None => None,
                },
            },
        }
    }
}

/// The first key from `k` on.
pub open spec fn first_key(keys: Seq<bool>, k: int) -> Option<int>
    decreases keys.len() - k,
{
    if k < 0 || k >= keys.len() {
        None
    } else if keys[k] {
        Some(k)
    } else {
        first_key(keys, k + 1)
    }
}

/// The last key below `n`.
pub open spec fn last_key(keys: Seq<bool>, n: int) -> Option<int>
    decreases n,
{
    if n <= 0 {
        None
    } else if keys[n - 1] {
        Some(n - 1)
    } else {
        last_key(keys, n - 1)
    }
}

/// The keys are all numbers from the first to the last, and more than one.
pub open spec fn is_run(keys: Seq<bool>, low: int, high: int) -> bool {
    low < high && forall|k: int| low <= k <= high ==> #[trigger] keys[k]
}

/// How a returned value scales the input; `visited` are the blocks on the way.
pub open spec fn classified(f: FuncView, v: ValueId, input: ValueId, visited: Seq<BlockId>) -> Option<
    ReturnExpr,
> {
    if v == input {
        Some(ReturnExpr::Input)
    } else {
        match (util::def_block(f, v), patterns::binary_of(f, v)) {
            (Some(owner), Some((op, lhs, rhs))) => if visited.contains(owner) {
                scaled(f, op, lhs, rhs, input)
            } else {
                None
            },
            _ => None,
        }
    }
}

/// How an operation scales the input.
pub open spec fn scaled(f: FuncView, op: BinaryOp, lhs: ValueId, rhs: ValueId, input: ValueId) -> Option<
    ReturnExpr,
> {
    match op {
        BinaryOp::Imul => if lhs == input {
            scale_by(f, ScaleKind::Left, rhs)
        } else if rhs == input {
            scale_by(f, ScaleKind::Left, lhs)
        } else {
            None
        },
        BinaryOp::Idiv => if lhs == input {
            scale_by(f, ScaleKind::SignedDivide, rhs)
        } else {
            None
        },
        _ => None,
    }
}

pub open spec fn scale_by(f: FuncView, kind: ScaleKind, v: ValueId) -> Option<ReturnExpr> {
    match util::const_i32_of(f, v) {
        Some(c) => match bits::shift_of(c as int) {
            Some(shift) => Some(ReturnExpr::Scale { kind, shift }),
            None => None,
        },
        None => None,
    }
}

/// What the function returns from a block on, where the selector is the given
/// number, or none that it is compared with.
pub open spec fn returned_from(
    f: FuncView,
    input: ValueId,
    selector: ValueId,
    case: Option<i32>,
    b: BlockId,
    visited: Seq<BlockId>,
    fuel: nat,
) -> Option<ReturnExpr>
    decreases fuel,
{
    if fuel == 0 || visited.contains(b) {
        None
    } else {
        let seen = visited.push(b);
        match f.terminator(b) {
            None => None,
            Some(Terminator::Jump(t)) => returned_from(
                f,
                input,
                selector,
                case,
                t,
                seen,
                (fuel - 1) as nat,
            ),
            Some(Terminator::Branch { cond, then_target, else_target }) => match selector_test_of(
                f,
                cond,
                selector,
            ) {
                Some((on_equal, key)) => returned_from(
                    f,
                    input,
                    selector,
                    case,
                    if (case == Some(key)) == on_equal {
                        then_target
                    } else {
                        else_target
                    },
                    seen,
                    (fuel - 1) as nat,
                ),
                None => None,
            },
            Some(Terminator::Return(Some(v))) => classified(f, v, input, seen),
            Some(Terminator::Return(None)) => None,
        }
    }
}

/// What the function returns.
pub open spec fn returned(f: FuncView, input: ValueId, selector: ValueId, case: Option<i32>) -> Option<
    ReturnExpr,
> {
    returned_from(f, input, selector, case, f.entry, Seq::empty(), f.blocks.len() + 1)
}

/// How the keys from `k` on scale the input; `found` is how those before do.
/// Nothing where a key does not scale by itself, or two scale differently.
pub open spec fn kind_from(
    f: FuncView,
    input: ValueId,
    selector: ValueId,
    keys: Seq<bool>,
    found: Option<ScaleKind>,
    k: int,
) -> Option<ScaleKind>
    decreases keys.len() - k,
{
    if k < 0 || k >= keys.len() {
        found
    } else if !keys[k] {
        kind_from(f, input, selector, keys, found, k + 1)
    } else {
        match returned(f, input, selector, Some(k as i32)) {
            None => None,
            Some(ReturnExpr::Input) => if k == 0 {
                kind_from(f, input, selector, keys, found, k + 1)
            } else {
                None
            },
            Some(ReturnExpr::Scale { kind, shift }) => if shift == k && (found is None || found
                == Some(kind)) {
                kind_from(f, input, selector, keys, Some(kind), k + 1)
            } else {
                None
            },
        }
    }
}

/// The function as one that scales the given input.
pub open spec fn role_of(f: FuncView, input: ValueId, selector: ValueId) -> Option<Candidate> {
    match keys_below(f, selector, f.blocks.len() as int) {
        None => None,
        Some(keys) => match (first_key(keys, 0), last_key(keys, keys.len() as int)) {
            (Some(low), Some(high)) => if is_run(keys, low, high) && returned(
                f,
                input,
                selector,
                None,
            ) == Some(ReturnExpr::Input) {
                match kind_from(f, input, selector, keys, None, 0) {
                    Some(kind) => Some(
                        Candidate {
                            input,
                            selector,
                            minimum: low as i32,
                            maximum: high as i32,
                            kind,
                        },
                    ),
                    None => None,
                }
            } else {
                None
            },
            _ => None,
        },
    }
}

/// The function is one of two integers, small, and computes only.
pub open spec fn is_looked_at(f: FuncView) -> bool {
    &&& f.ret == Type::I32
    &&& f.params.len() == 2
    &&& f.blocks.len() <= MAX_BLOCKS
    &&& f.values.len() <= MAX_VALUES
    &&& f.value(f.params[0]).ty == Type::I32
    &&& f.value(f.params[1]).ty == Type::I32
    &&& all_plain(f)
}

/// The function as one that scales one of its arguments; not where either could
/// be it.
pub open spec fn candidate_of(f: FuncView) -> Option<Candidate> {
    if is_looked_at(f) {
        match (role_of(f, f.params[0], f.params[1]), role_of(f, f.params[1], f.params[0])) {
            (Some(c), None) => Some(c),
            (None, Some(c)) => Some(c),
            _ => None,
        }
    } else {
        None
    }
}

// ---------------------------------------------------------------------------
// Mathematical model: rewriting
// ---------------------------------------------------------------------------

/// Some block leads to the entry.
pub open spec fn entry_is_target(f: FuncView) -> bool {
    exists|b: BlockId| f.has_block(b) && #[trigger] cfg::edge(f, b, f.entry)
}

/// The place of a value whose instruction moves with the entry.
pub open spec fn value_moved(v: ValueView, entry: BlockId, to: BlockId) -> ValueView {
    match v.kind {
        ValueKindView::Inst(b, i) => if b == entry {
            ValueView { kind: ValueKindView::Inst(to, i), ..v }
        } else {
            v
        },
        _ => v,
    }
}

/// The block whose phis name another block in place of the entry.
pub open spec fn block_renamed(b: BlockView, from: BlockId, to: BlockId) -> BlockView {
    BlockView { insts: edges::preds_renamed(b.insts, from, to), ..b }
}

/// The function with all that the entry held in a new block, and an empty entry.
#[verifier::opaque]
pub open spec fn entry_moved(f: FuncView, name: Seq<char>) -> FuncView {
    let to = f.next_block();
    let entry = block_renamed(f.block(f.entry), f.entry, to);
    FuncView {
        blocks: Seq::new(
            f.blocks.len(),
            |b: int|
                if b == f.entry.0 {
                    BlockView {
                        name: f.blocks[b].name,
                        insts: Seq::empty(),
                        terminator: None,
                    }
                } else {
                    block_renamed(f.blocks[b], f.entry, to)
                },
        ).push(BlockView { name, insts: entry.insts, terminator: entry.terminator }),
        values: Seq::new(f.values.len(), |v: int| value_moved(f.values[v], f.entry, to)),
        ..f
    }
}

/// The function with a fast path.
pub open spec fn fast_path_added(f: FuncView, c: Candidate) -> FuncView {
    let entry = f.entry.0;
    let fallback = f.blocks.len() as usize;
    let fast = (f.blocks.len() + 1) as usize;
    let g1 = entry_moved(f, "idiom.piecewise.fallback"@);
    let g2 = emit::block_added(g1, "idiom.piecewise.fast"@);
    let low = util::const_value(g2, Const::Int(c.minimum));
    let g3 = util::with_const(g2, Const::Int(c.minimum));
    let high = util::const_value(g3, Const::Int(c.maximum));
    let g4 = util::with_const(g3, Const::Int(c.maximum));
    let above = g4.next_value();
    let g5 = emit::emitted(
        g4,
        entry,
        emit::comparison(CompareOp::Ge, c.selector, low),
        Type::I1,
    );
    let below = g5.next_value();
    let g6 = emit::emitted(
        g5,
        entry,
        emit::comparison(CompareOp::Le, c.selector, high),
        Type::I1,
    );
    let inside = g6.next_value();
    let g7 = emit::emitted(g6, entry, emit::binary(BinaryOp::And, above, below), Type::I1);
    let (g8, test) = match c.kind {
        ScaleKind::Left => (g7, inside),
        ScaleKind::SignedDivide => {
            let zero = util::const_value(g7, Const::Int(0));
            let h1 = util::with_const(g7, Const::Int(0));
            let positive = h1.next_value();
            let h2 = emit::emitted(
                h1,
                entry,
                emit::comparison(CompareOp::Ge, c.input, zero),
                Type::I1,
            );
            (
                emit::emitted(h2, entry, emit::binary(BinaryOp::And, inside, positive), Type::I1),
                h2.next_value(),
            )
        },
    };
    let g9 = emit::ended(g8, entry, emit::branch(test, fast, fallback));
    let result = g9.next_value();
    let g10 = emit::emitted(g9, fast, emit::binary(shift_op(c.kind), c.input, c.selector), Type::I32);
    emit::ended(g10, fast, Terminator::Return(Some(result)))
}

pub open spec fn shift_op(kind: ScaleKind) -> BinaryOp {
    match kind {
        ScaleKind::Left => BinaryOp::Ishl,
        ScaleKind::SignedDivide => BinaryOp::Iashr,
    }
}

/// The effect on one function; an entry that is jumped to stays as it is. A
/// result that would not be valid is discarded.
pub open spec fn folded(f: FuncView) -> FuncView {
    match candidate_of(f) {
        Some(c) => if !entry_is_target(f) && verify::valid(fast_path_added(f, c)) {
            fast_path_added(f, c)
        } else {
            f
        },
        None => f,
    }
}

pub open spec fn folded_module(m: ModuleView) -> ModuleView {
    ModuleView { funcs: m.funcs.map_values(|f: FuncView| folded(f)), ..m }
}

// ---------------------------------------------------------------------------
// Executable functions: recognition
// ---------------------------------------------------------------------------

fn plain(kind: &InstKind) -> (r: bool)
    ensures
        r == is_plain(kind@),
{
    match kind {
        InstKind::Nop => true,
        InstKind::Unary { .. } => true,
        InstKind::Binary { op, .. } => match op {
            BinaryOp::Ishl => false,
            BinaryOp::Iashr => false,
            _ => true,
        },
        InstKind::ICompare { .. } => true,
        InstKind::Cast { .. } => true,
        _ => false,
    }
}

fn function_is_plain(func: &Function) -> (r: bool)
    ensures
        r == all_plain(func@),
{
    let ghost f = func@;
    let n = func.blocks.len();
    assert(n == f.blocks.len());
    for b in 0..n
        invariant
            func@ == f,
            n == f.blocks.len(),
            forall|c: BlockId, i: int|
                c.0 < b && f.has_inst(c, i) ==> is_plain((#[trigger] f.inst(c, i)).kind),
    {
        let count = func.blocks[b].insts.len();
        assert(count == f.block(BlockId(b)).insts.len());
        for i in 0..count
            invariant
                func@ == f,
                b < f.blocks.len(),
                count == f.block(BlockId(b)).insts.len(),
                forall|j: int|
                    0 <= j < i ==> is_plain((#[trigger] f.inst(BlockId(b), j)).kind),
        {
            let inst = &func.blocks[b].insts[i];
            assert(inst@ == f.inst(BlockId(b), i as int));
            if !plain(&inst.kind) {
                assert(f.has_inst(BlockId(b), i as int));
                return false;
            }
        }
        assert forall|c: BlockId, i: int| c.0 < b + 1 && f.has_inst(c, i) implies is_plain(
            (#[trigger] f.inst(c, i)).kind,
        ) by {
            if c.0 == b {
                assert(c == BlockId(b));
            }
        }
    }
    true
}

fn selector_test(func: &Function, v: ValueId, selector: ValueId) -> (r: Option<(bool, i32)>)
    ensures
        r == selector_test_of(func@, v, selector),
{
    let (op, lhs, rhs) = as_compare(func, v)?;
    let on_equal = match op {
        CompareOp::Eq => true,
        CompareOp::Ne => false,
        _ => return None,
    };
    if lhs == selector {
        let key = const_i32(func, rhs)?;
        Some((on_equal, key))
    } else if rhs == selector {
        let key = const_i32(func, lhs)?;
        Some((on_equal, key))
    } else {
        None
    }
}

proof fn lemma_keys_stop(f: FuncView, selector: ValueId, i: int, n: int)
    requires
        i <= n,
        keys_below(f, selector, i) is None,
    ensures
        keys_below(f, selector, n) is None,
    decreases n - i,
{
    if i < n {
        lemma_keys_stop(f, selector, i, n - 1);
    }
}

pub open spec fn keys_view(r: Option<Vec<bool>>) -> Option<Seq<bool>> {
    match r {
        Some(keys) => Some(keys@),
        None => None,
    }
}

fn collect_keys(func: &Function, selector: ValueId) -> (r: Option<Vec<bool>>)
    ensures
        keys_view(r) == keys_below(func@, selector, func@.blocks.len() as int),
        r matches Some(keys) ==> keys.len() == KEYS,
{
    let ghost f = func@;
    let mut keys: Vec<bool> = Vec::new();
    for k in 0..KEYS
        invariant
            keys.len() == k,
            forall|j: int| 0 <= j < k ==> !(#[trigger] keys@[j]),
    {
        keys.push(false);
    }
    assert(keys@ =~= Seq::new(KEYS as nat, |k: int| false));
    let n = func.blocks.len();
    assert(n == f.blocks.len());
    for b in 0..n
        invariant
            func@ == f,
            n == f.blocks.len(),
            keys.len() == KEYS,
            keys_below(f, selector, b as int) == Some(keys@),
    {
        if let Some((cond, _, _)) = as_branch(func, BlockId(b)) {
            let fits = match selector_test(func, cond, selector) {
                Some((_, key)) => {
                    if 0 <= key && key < KEYS as i32 {
                        keys.set(key as usize, true);
                        true
                    } else {
                        false
                    }
                },
                None => false,
            };
            if !fits {
                proof {
                    lemma_keys_stop(f, selector, b + 1, n as int);
                }
                return None;
            }
        }
    }
    Some(keys)
}

fn find_run(keys: &Vec<bool>) -> (r: Option<(i32, i32)>)
    requires
        keys.len() == KEYS,
    ensures
        match (first_key(keys@, 0), last_key(keys@, keys@.len() as int)) {
            (Some(low), Some(high)) => if is_run(keys@, low, high) {
                r == Some((low as i32, high as i32))
            } else {
                r is None
            },
            _ => r is None,
        },
{
    let mut low: usize = 0;
    while low < KEYS && !keys[low]
        invariant
            keys.len() == KEYS,
            low <= KEYS,
            first_key(keys@, 0) == first_key(keys@, low as int),
        decreases KEYS - low,
    {
        low = low + 1;
    }
    if low == KEYS {
        return None;
    }
    let mut end: usize = KEYS;
    while end > 0 && !keys[end - 1]
        invariant
            keys.len() == KEYS,
            end <= KEYS,
            last_key(keys@, KEYS as int) == last_key(keys@, end as int),
        decreases end,
    {
        end = end - 1;
    }
    if end == 0 {
        return None;
    }
    let high = end - 1;
    if low >= high {
        return None;
    }
    let mut k = low;
    while k <= high
        invariant
            keys.len() == KEYS,
            low < high < KEYS,
            low <= k <= high + 1,
            first_key(keys@, 0) == Some(low as int),
            last_key(keys@, keys@.len() as int) == Some(high as int),
            forall|j: int| low <= j < k ==> #[trigger] keys@[j],
        decreases high + 1 - k,
    {
        if !keys[k] {
            assert(!is_run(keys@, low as int, high as int));
            return None;
        }
        k = k + 1;
    }
    Some((low as i32, high as i32))
}

fn find_scale(func: &Function, kind: ScaleKind, v: ValueId) -> (r: Option<ReturnExpr>)
    ensures
        r == scale_by(func@, kind, v),
{
    let c = const_i32(func, v)?;
    let shift = power_of_two_shift(c)?;
    Some(ReturnExpr::Scale { kind, shift })
}

fn classify_return(func: &Function, v: ValueId, input: ValueId, visited: &Vec<BlockId>) -> (r: Option<
    ReturnExpr,
>)
    ensures
        r == classified(func@, v, input, visited@),
{
    if v == input {
        return Some(ReturnExpr::Input);
    }
    let owner = defining_block(func, v)?;
    let (op, lhs, rhs) = as_binary(func, v)?;
    if !contains_block(visited, owner) {
        return None;
    }
    match op {
        BinaryOp::Imul => if lhs == input {
            find_scale(func, ScaleKind::Left, rhs)
        } else if rhs == input {
            find_scale(func, ScaleKind::Left, lhs)
        } else {
            None
        },
        BinaryOp::Idiv => if lhs == input {
            find_scale(func, ScaleKind::SignedDivide, rhs)
        } else {
            None
        },
        _ => None,
    }
}

fn interpret_return(func: &Function, input: ValueId, selector: ValueId, case: Option<i32>) -> (r:
    Option<ReturnExpr>)
    requires
        func@.wf(),
        func@.blocks.len() <= MAX_BLOCKS,
    ensures
        r == returned(func@, input, selector, case),
{
    let ghost f = func@;
    let mut current = func.entry;
    let mut visited: Vec<BlockId> = Vec::new();
    assert(visited@ =~= Seq::empty());
    assert(func.blocks.len() == f.blocks.len());
    let mut fuel: usize = func.blocks.len() + 1;
    while fuel > 0
        invariant
            func@ == f,
            f.wf(),
            f.has_block(current),
            returned(f, input, selector, case) == returned_from(
                f,
                input,
                selector,
                case,
                current,
                visited@,
                fuel as nat,
            ),
        decreases fuel,
    {
        if contains_block(&visited, current) {
            return None;
        }
        visited.push(current);
        fuel = fuel - 1;
        proof {
            query::lemma_terminator_wf(f, current);
        }
        assert(func.blocks@[current.0 as int]@ == f.block(current));
        match &func.blocks[current.0].terminator {
            None => {
                return None;
            },
            Some(Terminator::Jump(t)) => {
                current = *t;
            },
            Some(Terminator::Branch { cond, then_target, else_target }) => {
                let (on_equal, key) = selector_test(func, *cond, selector)?;
                let equal = match case {
                    Some(x) => x == key,
                    None => false,
                };
                current = if equal == on_equal {
                    *then_target
                } else {
                    *else_target
                };
            },
            Some(Terminator::Return(v)) => {
                return match v {
                    Some(v) => classify_return(func, *v, input, &visited),
                    None => None,
                };
            },
        }
    }
    None
}

fn find_kind(func: &Function, input: ValueId, selector: ValueId, keys: &Vec<bool>) -> (r: Option<
    ScaleKind,
>)
    requires
        func@.wf(),
        func@.blocks.len() <= MAX_BLOCKS,
        keys.len() == KEYS,
    ensures
        r == kind_from(func@, input, selector, keys@, None, 0),
{
    let ghost f = func@;
    let mut found: Option<ScaleKind> = None;
    for k in 0..KEYS
        invariant
            func@ == f,
            f.wf(),
            f.blocks.len() <= MAX_BLOCKS,
            keys.len() == KEYS,
            kind_from(f, input, selector, keys@, None, 0) == kind_from(
                f,
                input,
                selector,
                keys@,
                found,
                k as int,
            ),
    {
        if keys[k] {
            match interpret_return(func, input, selector, Some(k as i32))? {
                ReturnExpr::Input => {
                    if k != 0 {
                        return None;
                    }
                },
                ReturnExpr::Scale { kind, shift } => {
                    if shift as usize != k {
                        return None;
                    }
                    if let Some(expected) = found {
                        if expected != kind {
                            return None;
                        }
                    }
                    found = Some(kind);
                },
            }
        }
    }
    found
}

fn match_roles(func: &Function, input: ValueId, selector: ValueId) -> (r: Option<Candidate>)
    requires
        func@.wf(),
        func@.blocks.len() <= MAX_BLOCKS,
    ensures
        r == role_of(func@, input, selector),
{
    let keys = collect_keys(func, selector)?;
    let (minimum, maximum) = find_run(&keys)?;
    match interpret_return(func, input, selector, None)? {
        ReturnExpr::Input => {},
        _ => return None,
    }
    let kind = find_kind(func, input, selector, &keys)?;
    Some(Candidate { input, selector, minimum, maximum, kind })
}

fn looked_at(func: &Function) -> (r: bool)
    requires
        func@.wf(),
    ensures
        r == is_looked_at(func@),
{
    assert(func.blocks.len() == func@.blocks.len());
    assert(func.values.len() == func@.values.len());
    match func.ret {
        Type::I32 => {},
        _ => return false,
    }
    if func.params.len() != 2 || func.blocks.len() > MAX_BLOCKS || func.values.len() > MAX_VALUES {
        return false;
    }
    let (a, b) = (func.params[0], func.params[1]);
    if a.0 >= func.values.len() || b.0 >= func.values.len() {
        return false;
    }
    has_type(func, a, &Type::I32) && has_type(func, b, &Type::I32) && function_is_plain(func)
}

pub fn match_piecewise_expr(func: &Function) -> (r: Option<Candidate>)
    requires
        func@.wf(),
    ensures
        r == candidate_of(func@),
{
    if !looked_at(func) {
        return None;
    }
    let first = match_roles(func, func.params[0], func.params[1]);
    let second = match_roles(func, func.params[1], func.params[0]);
    match (first, second) {
        (Some(c), None) => Some(c),
        (None, Some(c)) => Some(c),
        _ => None,
    }
}

// ---------------------------------------------------------------------------
// Executable functions: rewriting
// ---------------------------------------------------------------------------

fn is_entry_target(func: &Function) -> (r: bool)
    requires
        func@.wf(),
    ensures
        r == entry_is_target(func@),
{
    let ghost f = func@;
    let n = func.blocks.len();
    assert(n == f.blocks.len());
    for b in 0..n
        invariant
            func@ == f,
            n == f.blocks.len(),
            forall|c: BlockId| c.0 < b ==> !(#[trigger] cfg::edge(f, c, f.entry)),
    {
        let list = cfg::block_successors(func, b);
        if contains_block(&list, func.entry) {
            assert(cfg::edge(f, BlockId(b), f.entry));
            return true;
        }
    }
    false
}

/// Moves all that the entry holds to a new block.
fn move_entry_to_fallback(func: &mut Function, name: &str)
    requires
        old(func)@.wf(),
    ensures
        final(func)@ == entry_moved(old(func)@, name@),
        final(func)@.blocks.len() == old(func)@.blocks.len() + 1,
        final(func)@.values.len() == old(func)@.values.len(),
        final(func)@.entry == old(func)@.entry,
{
    reveal(entry_moved);
    let ghost f = func@;
    let entry = func.entry;
    let n = func.blocks.len();
    assert(n == f.blocks.len());
    let to = BlockId(n);
    let mut blocks: Vec<Block> = Vec::new();
    let mut moved: Vec<Inst> = Vec::new();
    let mut end: Option<Terminator> = None;
    let ghost target = block_renamed(f.block(f.entry), f.entry, to);
    for b in 0..n
        invariant
            func@ == f,
            entry == f.entry,
            n == f.blocks.len(),
            to == BlockId(n),
            target == block_renamed(f.block(f.entry), f.entry, to),
            blocks.len() == b,
            entry.0 < b ==> ir::insts_view(moved@) == target.insts && end == target.terminator,
            forall|j: int|
                0 <= j < b ==> (#[trigger] blocks@[j])@ == (if j == f.entry.0 {
                    BlockView {
                        name: f.blocks[j].name,
                        insts: Seq::empty(),
                        terminator: None,
                    }
                } else {
                    block_renamed(f.blocks[j], f.entry, to)
                }),
    {
        let block = &func.blocks[b];
        assert(block@ == f.blocks[b as int]);
        let insts = rename_preds(&block.insts, entry, to);
        if b == entry.0 {
            end = block.terminator;
            moved = insts;
            let none: Vec<Inst> = Vec::new();
            assert(ir::insts_view(none@) =~= Seq::empty());
            blocks.push(Block { name: block.name.clone(), insts: none, terminator: None });
        } else {
            blocks.push(
                Block { name: block.name.clone(), insts, terminator: block.terminator },
            );
        }
    }
    let ghost want = entry_moved(f, name@);
    let ghost before = blocks@;
    blocks.push(Block { name: name.to_owned(), insts: moved, terminator: end });
    let count = func.values.len();
    let mut values: Vec<Value> = Vec::new();
    assert(count == f.values.len());
    for v in 0..count
        invariant
            func@ == f,
            entry == f.entry,
            count == f.values.len(),
            values.len() == v,
            forall|j: int|
                0 <= j < v ==> (#[trigger] values@[j])@ == value_moved(f.values[j], f.entry, to),
    {
        let mut value = func.values[v].clone();
        assert(value@ == f.values[v as int]);
        if let ValueKind::Inst(b, i) = value.kind {
            if b == entry {
                value.kind = ValueKind::Inst(to, i);
            }
        }
        values.push(value);
    }
    func.blocks = blocks;
    func.values = values;
    assert(func@.blocks =~= want.blocks) by {
        assert forall|j: int| 0 <= j < func@.blocks.len() implies func@.blocks[j]
            == want.blocks[j] by {
            assert(func@.blocks[j] == func.blocks@[j]@);
            if j < n {
                assert(func.blocks@[j] == before[j]);
            }
        }
    }
    assert(func@.values =~= want.values);
}

fn install_fast_path(func: &mut Function, c: Candidate)
    requires
        old(func)@.wf(),
    ensures
        final(func)@ == fast_path_added(old(func)@, c),
{
    let entry = func.entry.0;
    let fallback = func.blocks.len();
    assert(fallback == func@.blocks.len());
    move_entry_to_fallback(func, "idiom.piecewise.fallback");
    let fast = new_block(func, "idiom.piecewise.fast");
    let low = get_or_add_i32_const(func, c.minimum);
    let high = get_or_add_i32_const(func, c.maximum);
    let above = emit_comparison(func, entry, CompareOp::Ge, c.selector, low);
    let below = emit_comparison(func, entry, CompareOp::Le, c.selector, high);
    let inside = emit_boolean(func, entry, BinaryOp::And, above, below);
    let test = match c.kind {
        ScaleKind::Left => inside,
        ScaleKind::SignedDivide => {
            let zero = get_or_add_i32_const(func, 0);
            let positive = emit_comparison(func, entry, CompareOp::Ge, c.input, zero);
            emit_boolean(func, entry, BinaryOp::And, inside, positive)
        },
    };
    end_branch(func, entry, test, fast, fallback);
    let op = match c.kind {
        ScaleKind::Left => BinaryOp::Ishl,
        ScaleKind::SignedDivide => BinaryOp::Iashr,
    };
    let result = emit_binary(func, fast, op, c.input, c.selector);
    end_return(func, fast, result);
}

/// Adds a fast path to a function that scales its argument.
pub fn fold_function(func: &mut Function)
    requires
        old(func)@.wf(),
    ensures
        final(func)@ == folded(old(func)@),
        final(func)@.wf(),
{
    if let Some(c) = match_piecewise_expr(func) {
        if !is_entry_target(func) {
            let before = func.clone();
            install_fast_path(func, c);
            if func.verify().is_err() {
                *func = before;
            }
        }
    }
}

/// The pass over all functions of a module.
pub struct PiecewiseExprPass;

impl PiecewiseExprPass {
    pub fn new() -> (r: Self) {
        PiecewiseExprPass
    }

    /// Adds a fast path to every function that scales its argument.
    pub fn run(&self, module: &mut Module)
        requires
            old(module)@.wf(),
        ensures
            final(module)@ == folded_module(old(module)@),
            final(module)@.wf(),
    {
        let ghost m = module@;
        let ghost want = folded_module(m);
        let n = module.funcs.len();
        for k in 0..n
            invariant
                n == module.funcs.len(),
                n == m.funcs.len(),
                m.wf(),
                module@ == (ModuleView { funcs: module@.funcs, ..m }),
                want == folded_module(m),
                forall|j: int|
                    0 <= j < k ==> #[trigger] module@.funcs[j] == want.funcs[j]
                        && module@.funcs[j].wf(),
                forall|j: int| k <= j < n ==> #[trigger] module@.funcs[j] == m.funcs[j],
        {
            assert(module@.funcs[k as int] == m.funcs[k as int]);
            let ghost before = module@.funcs;
            fold_function(&mut module.funcs[k]);
            assert(module@.funcs =~= before.update(k as int, module.funcs@[k as int]@));
        }
        assert(module@.funcs =~= want.funcs);
    }
}

// ---------------------------------------------------------------------------
// Laws
// ---------------------------------------------------------------------------

proof fn lemma_kind_kept(
    f: FuncView,
    input: ValueId,
    selector: ValueId,
    keys: Seq<bool>,
    found: Option<ScaleKind>,
    k: int,
)
    requires
        0 <= k,
        found is Some,
        kind_from(f, input, selector, keys, found, k) is Some,
    ensures
        kind_from(f, input, selector, keys, found, k) == found,
    decreases keys.len() - k,
{
    if k < keys.len() {
        lemma_kind_kept(f, input, selector, keys, found, k + 1);
    }
}

proof fn lemma_keys_scale(
    f: FuncView,
    input: ValueId,
    selector: ValueId,
    keys: Seq<bool>,
    found: Option<ScaleKind>,
    k: int,
    s: int,
)
    requires
        0 <= k <= s < keys.len(),
        keys.len() <= KEYS,
        keys[s],
        kind_from(f, input, selector, keys, found, k) is Some,
    ensures
        ({
            let kind = kind_from(f, input, selector, keys, found, k)->0;
            let r = returned(f, input, selector, Some(s as i32));
            r == Some(ReturnExpr::Scale { kind, shift: s as u32 }) || (s == 0 && r == Some(
                ReturnExpr::Input,
            ))
        }),
    decreases keys.len() - k,
{
    if k == s {
        if let Some(ReturnExpr::Scale { kind, shift }) = returned(
            f,
            input,
            selector,
            Some(k as i32),
        ) {
            lemma_kind_kept(f, input, selector, keys, Some(kind), k + 1);
        }
    } else if !keys[k] {
        lemma_keys_scale(f, input, selector, keys, found, k + 1, s);
    } else {
        match returned(f, input, selector, Some(k as i32)) {
            Some(ReturnExpr::Scale { kind, shift }) => {
                lemma_keys_scale(f, input, selector, keys, Some(kind), k + 1, s);
            },
            _ => {
                lemma_keys_scale(f, input, selector, keys, found, k + 1, s);
            },
        }
    }
}

proof fn lemma_keys_len(f: FuncView, selector: ValueId, n: int)
    ensures
        keys_below(f, selector, n) matches Some(keys) ==> keys.len() == KEYS,
    decreases n,
{
    if n > 0 {
        lemma_keys_len(f, selector, n - 1);
    }
}

proof fn lemma_first_key(keys: Seq<bool>, k: int)
    requires
        0 <= k,
    ensures
        first_key(keys, k) matches Some(i) ==> k <= i < keys.len(),
    decreases keys.len() - k,
{
    if k < keys.len() && !keys[k] {
        lemma_first_key(keys, k + 1);
    }
}

proof fn lemma_last_key(keys: Seq<bool>, n: int)
    ensures
        last_key(keys, n) matches Some(i) ==> 0 <= i < n,
    decreases n,
{
    if n > 0 && !keys[n - 1] {
        lemma_last_key(keys, n - 1);
    }
}

/// Wherever the fast path is taken, the function returns its input scaled by two
/// to the power of the selector; the input itself is its own multiple for
/// selector zero.
pub proof fn selected_scale_is_the_power(f: FuncView, input: ValueId, selector: ValueId, s: int)
    requires
        role_of(f, input, selector) matches Some(c) && c.minimum <= s <= c.maximum,
    ensures
        role_of(f, input, selector) matches Some(c) && (returned(
            f,
            input,
            selector,
            Some(s as i32),
        ) == Some(ReturnExpr::Scale { kind: c.kind, shift: s as u32 }) || (s == 0 && returned(
            f,
            input,
            selector,
            Some(s as i32),
        ) == Some(ReturnExpr::Input))),
{
    let keys = keys_below(f, selector, f.blocks.len() as int)->0;
    lemma_keys_len(f, selector, f.blocks.len() as int);
    lemma_first_key(keys, 0);
    lemma_last_key(keys, keys.len() as int);
    assert(keys[s]);
    lemma_keys_scale(f, input, selector, keys, None, 0, s);
}

/// A number that is not negative has the same quotient by a power of two,
/// rounded towards zero or down, as the shift does.
pub proof fn shifting_divides(x: int, s: nat)
    requires
        x >= 0,
    ensures
        range_integer::quotient(x, pow2(s) as int) == x / (pow2(s) as int),
{
    lemma_pow2_pos(s);
}

/// The pass keeps functions valid.
pub proof fn folding_keeps_validity(f: FuncView)
    requires
        verify::valid(f),
    ensures
        verify::valid(folded(f)),
{
}

} // verus!
