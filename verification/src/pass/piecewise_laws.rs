//! The fast path of a function that scales its argument keeps what the function
//! computes.
use vstd::arithmetic::div_mod;
use vstd::arithmetic::power2::{lemma_pow2_pos, pow2};
use vstd::prelude::*;

use crate::bits;
use crate::cfg;
use crate::edit;
use crate::emit;
use crate::ir::{
    BinaryOp, BlockId, CompareOp, Const, FuncView, InstView, KindView, Terminator, Type, ValueId,
    ValueKindView,
};
use crate::pass::edges;
use crate::pass::piecewise_expr;
use crate::pass::piecewise_expr::{Candidate, ReturnExpr, ScaleKind};
use crate::pass::range_integer;
use crate::pass::range_integer::laws as integer_laws;
use crate::pass::range_integer::laws::computes_integers;
use crate::pass::simplify_cfg::meaning_laws::constants_kept;
use crate::pass::simplify_cfg::select_laws::entered_once;
use crate::pass::simplify_cfg::store_laws;
use crate::pass::simplify_cfg::threading_laws;
use crate::pass::simplify_cfg::threading_laws::{fits, next_block};
use crate::patterns;
use crate::query;
use crate::semantics;
use crate::semantics::{Meaning, State};
use crate::ssa;
use crate::util;
use crate::verify;

verus! {

// ---------------------------------------------------------------------------
// Integers
// ---------------------------------------------------------------------------

/// Products and shifts to the left are those of numbers of 32 bits.
pub open spec fn scales_integers<D, M>(m: Meaning<D, M>, number: spec_fn(D) -> i32) -> bool {
    &&& computes_integers(m, number)
    &&& m.has_booleans()
    &&& forall|v: ValueId, w: ValueId, a: D, b: D, memory: M| #[trigger]
        m.of_two(BinaryOp::Imul, v, w, a, b, memory) == m.integer(
            (number(a) * number(b)) as i32,
        )
    &&& forall|v: ValueId, w: ValueId, a: D, b: D, memory: M|
        0 <= number(b) <= 31 ==> #[trigger] m.of_two(BinaryOp::Ishl, v, w, a, b, memory)
            == m.integer(number(a) << (number(b) as u32))
}

/// A product with a power of two is a shift.
proof fn lemma_product_is_shift(x: i32, c: i32, s: u32)
    requires
        s <= 30,
        c == pow2(s as nat),
    ensures
        (x * c) as i32 == x << s,
        (c * x) as i32 == x << s,
{
    bits::lemma_power(s);
    assert((x * c) as i32 == x << s) by (bit_vector)
        requires
            s <= 30,
            c == 1i32 << s,
    ;
    assert(x * c == c * x) by (nonlinear_arith);
}

/// The quotient of a number that is not negative by a power of two is a shift.
proof fn lemma_quotient_is_shift(x: i32, c: i32, s: u32)
    requires
        s <= 30,
        c == pow2(s as nat),
        x >= 0,
    ensures
        range_integer::quotient(x as int, c as int) == x >> s,
{
    bits::lemma_shifted(x, s);
    lemma_pow2_pos(s as nat);
    div_mod::lemma_fundamental_div_mod_converse(
        x as int,
        c as int,
        (x >> s) as int,
        (x & bits::low_bits(s)) as int,
    );
}

// ---------------------------------------------------------------------------
// What the function returns
// ---------------------------------------------------------------------------

/// What a call that returns the expression returns.
pub open spec fn is_value_of<D, M>(
    m: Meaning<D, M>,
    number: spec_fn(D) -> i32,
    e: ReturnExpr,
    input: D,
    d: D,
) -> bool {
    match e {
        ReturnExpr::Input => d == input,
        ReturnExpr::Scale { kind, shift } => match kind {
            ScaleKind::Left => d == m.integer(number(input) << shift),
            ScaleKind::SignedDivide => number(input) >= 0 ==> d == m.integer(
                number(input) >> shift,
            ),
        },
    }
}

proof fn lemma_scaled<D, M>(
    f: FuncView,
    m: Meaning<D, M>,
    number: spec_fn(D) -> i32,
    b: BlockId,
    n: int,
    env: Map<ValueId, D>,
    memory: M,
    v: ValueId,
    input: ValueId,
    visited: Seq<BlockId>,
)
    requires
        verify::valid(f),
        fits(f),
        scales_integers(m, number),
        cfg::reachable(f, b),
        ssa::knows(f, m, b, n, env),
        ssa::is_known(f, v, b, n),
        piecewise_expr::classified(f, v, input, visited) is Some,
    ensures
        is_value_of(
            m,
            number,
            piecewise_expr::classified(f, v, input, visited)->Some_0,
            env[input],
            env[v],
        ),
{
    if v != input {
        let (op, lhs, rhs) = patterns::binary_of(f, v)->Some_0;
        integer_laws::lemma_binary_known(f, m, b, n, env, v, memory);
        assert(constants_kept(f, m, env)) by {
            reveal(ssa::knows);
        }
        integer_laws::lemma_const_number(f, m, number, env, lhs);
        integer_laws::lemma_const_number(f, m, number, env, rhs);
        let other = if op == BinaryOp::Imul && lhs != input {
            lhs
        } else {
            rhs
        };
        let c = util::const_i32_of(f, other)->Some_0;
        bits::shift_is_the_exponent(c as int, 0);
        let s = bits::shift_of(c as int)->Some_0;
        let x = number(env[input]);
        lemma_product_is_shift(x, c, s);
        if x >= 0 {
            lemma_quotient_is_shift(x, c, s);
        }
        lemma_pow2_pos(s as nat);
    }
}

/// Control stands in block `b`, and the arguments are as they were given.
pub open spec fn on_course<D, M>(
    f: FuncView,
    m: Meaning<D, M>,
    b: BlockId,
    env: Map<ValueId, D>,
    args: Map<ValueId, D>,
    input: ValueId,
    selector: ValueId,
) -> bool {
    &&& f.has_block(b)
    &&& cfg::reachable(f, b)
    &&& ssa::knows(f, m, b, 0, env)
    &&& env[input] == args[input]
    &&& env[selector] == args[selector]
}

pub open spec fn is_param(f: FuncView, v: ValueId) -> bool {
    f.has_value(v) && f.value(v).kind is Param
}

/// A block is left for the next one.
proof fn lemma_course_kept<D, M>(
    f: FuncView,
    m: Meaning<D, M>,
    b: BlockId,
    to: BlockId,
    env: Map<ValueId, D>,
    memory: M,
    args: Map<ValueId, D>,
    input: ValueId,
    selector: ValueId,
)
    requires
        verify::valid(f),
        fits(f),
        entered_once(f),
        m.computes_apart_from_memory(),
        piecewise_expr::all_plain(f),
        is_param(f, input),
        is_param(f, selector),
        on_course(f, m, b, env, args, input, selector),
        next_block(
            m,
            f.terminator(b),
            semantics::executed(
                m,
                f.block(b).insts,
                f.block(b).insts.len() as int,
                env,
                memory,
            ).0,
        ) == Some(to),
    ensures
        ({
            let n = f.block(b).insts.len() as int;
            let x = semantics::executed(m, f.block(b).insts, n, env, memory).0;
            &&& on_course(f, m, to, x, args, input, selector)
            &&& semantics::step(f, m, State::Running { block: b, env, memory })
                == (State::Running { block: to, env: x, memory })
        }),
{
    let insts = f.block(b).insts;
    let n = insts.len() as int;
    let (x, mem) = semantics::executed(m, insts, n, env, memory);
    lemma_all_plain(f, m, b, env, memory);
    ssa::lemma_known_at_end(f, m, b, n, env, memory);
    ssa::lemma_known_on_arrival(f, m, b, to, x);
    store_laws::lemma_block_leaves(f, m, b, n, env, memory, input);
    store_laws::lemma_block_leaves(f, m, b, n, env, memory, selector);
    let list = f.block(to).insts;
    assert forall|i: int| 0 <= i < list.len() implies !((#[trigger] list[i]).kind is Phi)
        || list[i].result is None by {
        assert(f.has_inst(to, i));
        assert(f.inst(to, i) == list[i]);
    }
    semantics::lemma_nothing_assigned(list, list.len() as int, b, x);
}

proof fn lemma_all_plain<D, M>(
    f: FuncView,
    m: Meaning<D, M>,
    b: BlockId,
    env: Map<ValueId, D>,
    memory: M,
)
    requires
        m.computes_apart_from_memory(),
        piecewise_expr::all_plain(f),
        f.has_block(b),
    ensures
        semantics::executed(
            m,
            f.block(b).insts,
            f.block(b).insts.len() as int,
            env,
            memory,
        ).1 == memory,
{
    let insts = f.block(b).insts;
    assert forall|i: int| 0 <= i < insts.len() implies (#[trigger] insts[i]).kind is Nop
        || semantics::is_plain(insts[i].kind) by {
        assert(f.has_inst(b, i));
        assert(f.inst(b, i) == insts[i]);
    }
    store_laws::lemma_plain_memory(m, insts, insts.len() as int, env, memory);
}

/// A call returns what the analysis of its branches says.
proof fn lemma_returns<D, M>(
    f: FuncView,
    m: Meaning<D, M>,
    number: spec_fn(D) -> i32,
    b: BlockId,
    env: Map<ValueId, D>,
    memory: M,
    args: Map<ValueId, D>,
    input: ValueId,
    selector: ValueId,
    visited: Seq<BlockId>,
    fuel: nat,
) -> (r: (nat, D))
    requires
        verify::valid(f),
        fits(f),
        entered_once(f),
        m.computes_apart_from_memory(),
        scales_integers(m, number),
        piecewise_expr::all_plain(f),
        is_param(f, input),
        is_param(f, selector),
        on_course(f, m, b, env, args, input, selector),
        piecewise_expr::returned_from(
            f,
            input,
            selector,
            Some(number(args[selector])),
            b,
            visited,
            fuel,
        ) is Some,
    ensures
        semantics::steps(f, m, State::Running { block: b, env, memory }, r.0)
            == (State::Returned { value: Some(r.1), memory }),
        is_value_of(
            m,
            number,
            piecewise_expr::returned_from(
                f,
                input,
                selector,
                Some(number(args[selector])),
                b,
                visited,
                fuel,
            )->Some_0,
            args[input],
            r.1,
        ),
    decreases fuel,
{
    let case = Some(number(args[selector]));
    let insts = f.block(b).insts;
    let n = insts.len() as int;
    let s = State::Running { block: b, env, memory };
    let (x, mem) = semantics::executed(m, insts, n, env, memory);
    let seen = visited.push(b);
    lemma_all_plain(f, m, b, env, memory);
    ssa::lemma_known_at_end(f, m, b, n, env, memory);
    store_laws::lemma_block_leaves(f, m, b, n, env, memory, input);
    store_laws::lemma_block_leaves(f, m, b, n, env, memory, selector);
    semantics::lemma_few_steps(f, m, s);
    assert(verify::block_valid(f, b));
    query::lemma_terminator_wf(f, b);
    let reads = edit::terminator_reads(f.terminator(b));
    match f.terminator(b) {
        Some(Terminator::Jump(t)) => {
            lemma_course_kept(f, m, b, t, env, memory, args, input, selector);
            let r = lemma_returns(
                f,
                m,
                number,
                t,
                x,
                memory,
                args,
                input,
                selector,
                seen,
                (fuel - 1) as nat,
            );
            semantics::lemma_steps_add(f, m, s, 1, r.0);
            (1 + r.0, r.1)
        },
        Some(Terminator::Branch { cond, then_target, else_target }) => {
            let (on_equal, key) = piecewise_expr::selector_test_of(f, cond, selector)->Some_0;
            assert(reads[0] == cond);
            assert(verify::available(f, reads[0], b, verify::block_end(f, b)));
            ssa::lemma_available_is_known(f, cond, b, n);
            integer_laws::lemma_compare_known(f, m, b, n, x, cond, memory);
            assert(constants_kept(f, m, x)) by {
                reveal(ssa::knows);
            }
            let (op, lhs, rhs) = patterns::compare_of(f, cond)->Some_0;
            integer_laws::lemma_const_number(f, m, number, x, lhs);
            integer_laws::lemma_const_number(f, m, number, x, rhs);
            assert((m.truth)(x[cond]) == ((case == Some(key)) == on_equal));
            let t = if (case == Some(key)) == on_equal {
                then_target
            } else {
                else_target
            };
            lemma_course_kept(f, m, b, t, env, memory, args, input, selector);
            let r = lemma_returns(
                f,
                m,
                number,
                t,
                x,
                memory,
                args,
                input,
                selector,
                seen,
                (fuel - 1) as nat,
            );
            semantics::lemma_steps_add(f, m, s, 1, r.0);
            (1 + r.0, r.1)
        },
        Some(Terminator::Return(Some(v))) => {
            assert(reads[0] == v);
            assert(verify::available(f, reads[0], b, verify::block_end(f, b)));
            ssa::lemma_available_is_known(f, v, b, n);
            lemma_scaled(f, m, number, b, n, x, memory, v, input, seen);
            (1, x[v])
        },
        _ => (0, x[input]),
    }
}

/// Every key scales by itself, in the same way.
proof fn lemma_kind_from(
    f: FuncView,
    input: ValueId,
    selector: ValueId,
    keys: Seq<bool>,
    found: Option<ScaleKind>,
    k: int,
    key: int,
)
    requires
        0 <= k <= key < keys.len() <= 32,
        keys[key],
        piecewise_expr::kind_from(f, input, selector, keys, found, k) is Some,
    ensures
        ({
            let kind = piecewise_expr::kind_from(f, input, selector, keys, found, k)->Some_0;
            let r = piecewise_expr::returned(f, input, selector, Some(key as i32));
            r == Some(ReturnExpr::Scale { kind, shift: key as u32 }) || (key == 0 && r == Some(
                ReturnExpr::Input,
            ))
        }),
    decreases keys.len() - k,
{
    let next = if !keys[k] {
        found
    } else {
        match piecewise_expr::returned(f, input, selector, Some(k as i32)) {
            Some(ReturnExpr::Scale { kind, shift }) => Some(kind),
            _ => found,
        }
    };
    lemma_kind_stays(f, input, selector, keys, next, k + 1);
    if k < key {
        lemma_kind_from(f, input, selector, keys, next, k + 1, key);
    }
}

proof fn lemma_kind_stays(
    f: FuncView,
    input: ValueId,
    selector: ValueId,
    keys: Seq<bool>,
    found: Option<ScaleKind>,
    k: int,
)
    requires
        0 <= k,
    ensures
        found is Some ==> (piecewise_expr::kind_from(f, input, selector, keys, found, k) matches Some(
            kind,
        ) ==> found == Some(kind)),
    decreases keys.len() - k,
{
    if k < keys.len() && found is Some {
        lemma_kind_stays(f, input, selector, keys, found, k + 1);
    }
}

proof fn lemma_keys(f: FuncView, selector: ValueId, n: int)
    ensures
        piecewise_expr::keys_below(f, selector, n) matches Some(keys) ==> keys.len() == 32,
    decreases n,
{
    if n > 0 {
        lemma_keys(f, selector, n - 1);
    }
}

proof fn lemma_first_key(keys: Seq<bool>, k: int)
    requires
        0 <= k,
    ensures
        piecewise_expr::first_key(keys, k) matches Some(low) ==> 0 <= low < keys.len(),
    decreases keys.len() - k,
{
    if k < keys.len() && !keys[k] {
        lemma_first_key(keys, k + 1);
    }
}

proof fn lemma_last_key(keys: Seq<bool>, n: int)
    requires
        n <= keys.len(),
    ensures
        piecewise_expr::last_key(keys, n) matches Some(high) ==> 0 <= high < n,
    decreases n,
{
    if n > 0 && !keys[n - 1] {
        lemma_last_key(keys, n - 1);
    }
}

/// Within the range, the function scales by the selector.
proof fn lemma_candidate(f: FuncView, c: Candidate, key: i32)
    requires
        piecewise_expr::candidate_of(f) == Some(c),
        c.minimum <= key <= c.maximum,
    ensures
        0 <= key <= 31,
        ({
            let r = piecewise_expr::returned(f, c.input, c.selector, Some(key));
            r == Some(ReturnExpr::Scale { kind: c.kind, shift: key as u32 }) || (key == 0 && r
                == Some(ReturnExpr::Input))
        }),
{
    let n = f.blocks.len() as int;
    assert(piecewise_expr::role_of(f, c.input, c.selector) == Some(c));
    lemma_keys(f, c.selector, n);
    let keys = piecewise_expr::keys_below(f, c.selector, n)->Some_0;
    lemma_first_key(keys, 0);
    lemma_last_key(keys, keys.len() as int);
    assert(keys[key as int]);
    lemma_kind_from(f, c.input, c.selector, keys, None, 0, key as int);
}

// ---------------------------------------------------------------------------
// The function with the fast path
// ---------------------------------------------------------------------------

/// What `h` holds, `k` holds too.
pub open spec fn persists(h: FuncView, k: FuncView) -> bool {
    &&& k.values.len() >= h.values.len()
    &&& k.blocks.len() >= h.blocks.len()
    &&& forall|v: ValueId| h.has_value(v) ==> #[trigger] k.value(v) == h.value(v)
    &&& forall|b: BlockId, i: int|
        h.has_inst(b, i) ==> k.has_inst(b, i) && (#[trigger] k.inst(b, i)) == h.inst(b, i)
}

pub proof fn lemma_persists_on(h: FuncView, k: FuncView, l: FuncView)
    requires
        persists(h, k),
        persists(k, l),
    ensures
        persists(h, l),
{
    assert forall|v: ValueId| h.has_value(v) implies #[trigger] l.value(v) == h.value(v) by {
        assert(k.value(v) == h.value(v));
    }
    assert forall|b: BlockId, i: int| h.has_inst(b, i) implies l.has_inst(b, i) && (
    #[trigger] l.inst(b, i)) == h.inst(b, i) by {
        assert(k.inst(b, i) == h.inst(b, i));
    }
}

proof fn lemma_definition_persists(h: FuncView, k: FuncView, v: ValueId)
    requires
        persists(h, k),
    ensures
        util::def_kind(h, v) is Some ==> util::def_kind(k, v) == util::def_kind(h, v),
        util::const_i32_of(h, v) is Some ==> util::const_i32_of(k, v) == util::const_i32_of(h, v),
{
    if h.has_value(v) {
        assert(k.value(v) == h.value(v));
        if let ValueKindView::Inst(b, i) = h.value(v).kind {
            if h.has_inst(b, i as int) {
                assert(k.inst(b, i as int) == h.inst(b, i as int));
            }
        }
    }
}

pub proof fn lemma_emitted(h: FuncView, b: usize, kind: KindView, ty: Type)
    requires
        b < h.blocks.len(),
        h.values.len() < usize::MAX,
        h.block(BlockId(b)).insts.len() < usize::MAX,
    ensures
        ({
            let k = emit::emitted(h, b, kind, ty);
            &&& persists(h, k)
            &&& k.entry == h.entry
            &&& k.blocks.len() == h.blocks.len()
            &&& k.values.len() == h.values.len() + 1
            &&& util::def_kind(k, h.next_value()) == Some(kind)
            &&& k.block(BlockId(b)).insts == h.block(BlockId(b)).insts.push(
                InstView { result: Some(h.next_value()), kind },
            )
            &&& k.terminator(BlockId(b)) == h.terminator(BlockId(b))
            &&& forall|c: BlockId| #[trigger]
                h.has_block(c) && c.0 != b ==> k.block(c) == h.block(c)
        }),
{
    reveal(emit::emitted);
    let k = emit::emitted(h, b, kind, ty);
    assert forall|c: BlockId, i: int| h.has_inst(c, i) implies k.has_inst(c, i) && (
    #[trigger] k.inst(c, i)) == h.inst(c, i) by {
    }
    let n = h.block(BlockId(b)).insts.len() as int;
    assert(k.inst(BlockId(b), n).kind == kind);
}

proof fn lemma_const_added(h: FuncView, i: i32)
    requires
        h.values.len() < usize::MAX,
    ensures
        ({
            let k = util::with_const(h, Const::Int(i));
            &&& persists(h, k)
            &&& k.blocks == h.blocks
            &&& k.entry == h.entry
            &&& k.values.len() <= h.values.len() + 1
            &&& util::const_i32_of(k, util::const_value(h, Const::Int(i))) == Some(i)
        }),
{
    integer_laws::lemma_const_there(h, Const::Int(i));
}

pub proof fn lemma_ended(h: FuncView, b: usize, t: Terminator)
    requires
        b < h.blocks.len(),
    ensures
        ({
            let k = emit::ended(h, b, t);
            &&& persists(h, k)
            &&& k.values == h.values
            &&& k.entry == h.entry
            &&& k.blocks.len() == h.blocks.len()
            &&& k.block(BlockId(b)).insts == h.block(BlockId(b)).insts
            &&& k.terminator(BlockId(b)) == Some(t)
            &&& forall|c: BlockId| #[trigger]
                h.has_block(c) && c.0 != b ==> k.block(c) == h.block(c)
        }),
{
    reveal(emit::ended);
}

/// The value tests that the selector lies in the range.
pub open spec fn tests_range(g: FuncView, c: Candidate, test: ValueId) -> bool {
    patterns::binary_of(g, test) matches Some((op, a, b)) && op == BinaryOp::And && (
    patterns::compare_of(g, a) matches Some((x, v, low)) && x == CompareOp::Ge && v == c.selector
        && util::const_i32_of(g, low) == Some(c.minimum)) && (patterns::compare_of(
        g,
        b,
    ) matches Some((y, w, high)) && y == CompareOp::Le && w == c.selector && util::const_i32_of(
        g,
        high,
    ) == Some(c.maximum))
}

/// The value tests whether the fast path can be taken.
pub open spec fn tests_path(g: FuncView, c: Candidate, test: ValueId) -> bool {
    match c.kind {
        ScaleKind::Left => tests_range(g, c, test),
        ScaleKind::SignedDivide => patterns::binary_of(g, test) matches Some((op, a, b)) && op
            == BinaryOp::And && tests_range(g, c, a) && (patterns::compare_of(g, b) matches Some(
            (x, v, zero),
        ) && x == CompareOp::Ge && v == c.input && util::const_i32_of(g, zero) == Some(0i32)),
    }
}

/// Where the instructions of a block stand.
pub open spec fn moved(f: FuncView, b: BlockId) -> BlockId {
    if b == f.entry {
        f.next_block()
    } else {
        b
    }
}

/// The block only computes.
pub open spec fn computes(insts: Seq<InstView>) -> bool {
    forall|i: int| 0 <= i < insts.len() ==> semantics::is_plain((#[trigger] insts[i]).kind)
}

/// The function with the fast path, block by block.
pub open spec fn has_fast_path(f: FuncView, g: FuncView, c: Candidate) -> bool {
    let fast = BlockId((f.blocks.len() + 1) as usize);
    &&& g.entry == f.entry
    &&& g.blocks.len() == f.blocks.len() + 2
    &&& g.values.len() >= f.values.len()
    &&& forall|v: ValueId|
        f.has_value(v) ==> (#[trigger] g.value(v)).ty == f.value(v).ty && (f.value(v).kind is Inst
            ==> g.value(v).kind is Inst) && (!(f.value(v).kind is Inst) ==> g.value(v).kind
            == f.value(v).kind)
    &&& forall|b: BlockId| #[trigger]
        f.has_block(b) ==> g.block(moved(f, b)).insts == f.block(b).insts && g.terminator(
            moved(f, b),
        ) == f.terminator(b)
    &&& computes(g.block(f.entry).insts)
    &&& new_values_only(f, g.block(f.entry).insts)
    &&& g.block(f.entry).insts.len() <= 5
    &&& computes(g.block(fast).insts)
    &&& g.block(fast).insts.len() <= 5
    &&& g.terminator(f.entry) matches Some(Terminator::Branch { cond, then_target, else_target })
        && then_target == fast && else_target == f.next_block() && tests_path(g, c, cond)
    &&& g.terminator(fast) matches Some(Terminator::Return(Some(r))) && patterns::binary_of(g, r)
        == Some((piecewise_expr::shift_op(c.kind), c.input, c.selector))
}

proof fn lemma_entry_moved(f: FuncView, name: Seq<char>)
    requires
        f.wf(),
        f.blocks.len() < usize::MAX,
        piecewise_expr::all_plain(f),
    ensures
        ({
            let g = piecewise_expr::entry_moved(f, name);
            &&& g.entry == f.entry
            &&& g.blocks.len() == f.blocks.len() + 1
            &&& g.values.len() == f.values.len()
            &&& forall|v: ValueId|
                f.has_value(v) ==> (#[trigger] g.value(v)).ty == f.value(v).ty && (f.value(v).kind
                    is Inst ==> g.value(v).kind is Inst) && (!(f.value(v).kind is Inst) ==> g.value(
                    v,
                ).kind == f.value(v).kind)
            &&& forall|b: BlockId| #[trigger]
                f.has_block(b) ==> g.block(moved(f, b)).insts == f.block(b).insts && g.terminator(
                    moved(f, b),
                ) == f.terminator(b)
            &&& g.block(f.entry).insts == Seq::<InstView>::empty()
        }),
{
    reveal(piecewise_expr::entry_moved);
    let g = piecewise_expr::entry_moved(f, name);
    let to = f.next_block();
    assert forall|b: BlockId| #[trigger] f.has_block(b) implies g.block(moved(f, b)).insts
        == f.block(b).insts && g.terminator(moved(f, b)) == f.terminator(b) by {
        let insts = f.block(b).insts;
        assert(edges::preds_renamed(insts, f.entry, to) =~= insts) by {
            assert forall|i: int| 0 <= i < insts.len() implies (#[trigger] edges::preds_renamed(
                insts,
                f.entry,
                to,
            )[i]) == insts[i] by {
                assert(f.has_inst(b, i));
                assert(f.inst(b, i) == insts[i]);
            }
        }
        assert(f.blocks[b.0 as int] == f.block(b));
    }
}

#[verifier::rlimit(60)]
proof fn lemma_fast_path(f: FuncView, c: Candidate)
    requires
        f.wf(),
        piecewise_expr::candidate_of(f) == Some(c),
    ensures
        has_fast_path(f, piecewise_expr::fast_path_added(f, c), c),
{
    let entry = f.entry.0;
    let fallback = f.blocks.len() as usize;
    let fast = (f.blocks.len() + 1) as usize;
    let g1 = piecewise_expr::entry_moved(f, "idiom.piecewise.fallback"@);
    lemma_entry_moved(f, "idiom.piecewise.fallback"@);
    let g2 = emit::block_added(g1, "idiom.piecewise.fast"@);
    assert(g2 == g1.add_block("idiom.piecewise.fast"@)) by {
        reveal(emit::block_added);
    }
    let low = util::const_value(g2, Const::Int(c.minimum));
    let g3 = util::with_const(g2, Const::Int(c.minimum));
    lemma_const_added(g2, c.minimum);
    let high = util::const_value(g3, Const::Int(c.maximum));
    let g4 = util::with_const(g3, Const::Int(c.maximum));
    lemma_const_added(g3, c.maximum);
    lemma_persists_on(g2, g3, g4);
    let above = g4.next_value();
    let k5 = emit::comparison(CompareOp::Ge, c.selector, low);
    let g5 = emit::emitted(g4, entry, k5, Type::I1);
    lemma_emitted(g4, entry, k5, Type::I1);
    let below = g5.next_value();
    let k6 = emit::comparison(CompareOp::Le, c.selector, high);
    let g6 = emit::emitted(g5, entry, k6, Type::I1);
    lemma_emitted(g5, entry, k6, Type::I1);
    let inside = g6.next_value();
    let k7 = emit::binary(BinaryOp::And, above, below);
    let g7 = emit::emitted(g6, entry, k7, Type::I1);
    lemma_emitted(g6, entry, k7, Type::I1);
    lemma_persists_on(g5, g6, g7);
    lemma_persists_on(g4, g5, g7);
    lemma_persists_on(g3, g4, g7);
    lemma_persists_on(g2, g3, g7);
    let zero = util::const_value(g7, Const::Int(0));
    let h1 = util::with_const(g7, Const::Int(0));
    lemma_const_added(g7, 0);
    let positive = h1.next_value();
    let k8 = emit::comparison(CompareOp::Ge, c.input, zero);
    let h2 = emit::emitted(h1, entry, k8, Type::I1);
    lemma_emitted(h1, entry, k8, Type::I1);
    let k9 = emit::binary(BinaryOp::And, inside, positive);
    let h3 = emit::emitted(h2, entry, k9, Type::I1);
    lemma_emitted(h2, entry, k9, Type::I1);
    lemma_persists_on(h1, h2, h3);
    lemma_persists_on(g7, h1, h3);
    let (g8, test) = match c.kind {
        ScaleKind::Left => (g7, inside),
        ScaleKind::SignedDivide => (h3, h2.next_value()),
    };
    assert(persists(g7, g8));
    let t9 = emit::branch(test, fast, fallback);
    let g9 = emit::ended(g8, entry, t9);
    lemma_ended(g8, entry, t9);
    let result = g9.next_value();
    let k10 = emit::binary(piecewise_expr::shift_op(c.kind), c.input, c.selector);
    let g10 = emit::emitted(g9, fast, k10, Type::I32);
    assert(g2.block(BlockId(fast)).insts == Seq::<InstView>::empty());
    assert(g2.has_block(BlockId(fast)) && g8.has_block(BlockId(fast)));
    assert(g4.block(BlockId(fast)) == g2.block(BlockId(fast)));
    assert(g5.has_block(BlockId(fast)) && g6.has_block(BlockId(fast)) && g4.has_block(
        BlockId(fast),
    ) && h1.has_block(BlockId(fast)) && h2.has_block(BlockId(fast)));
    assert(g9.block(BlockId(fast)).insts == Seq::<InstView>::empty());
    lemma_emitted(g9, fast, k10, Type::I32);
    let t11 = Terminator::Return(Some(result));
    let g = emit::ended(g10, fast, t11);
    lemma_ended(g10, fast, t11);
    assert(g == piecewise_expr::fast_path_added(f, c));
    lemma_persists_on(g9, g10, g);
    lemma_persists_on(g8, g9, g);
    lemma_persists_on(g7, g8, g);
    lemma_persists_on(g6, g7, g);
    lemma_persists_on(g5, g6, g);
    lemma_persists_on(g4, g5, g);
    lemma_persists_on(g3, g4, g);
    lemma_persists_on(g2, g3, g);
    lemma_definition_persists(g3, g, low);
    lemma_definition_persists(g4, g, high);
    lemma_definition_persists(g5, g, above);
    lemma_definition_persists(g6, g, below);
    lemma_definition_persists(g7, g, inside);
    lemma_definition_persists(g10, g, result);
    if c.kind == ScaleKind::SignedDivide {
        lemma_persists_on(h3, g9, g);
        lemma_persists_on(h2, h3, g);
        lemma_persists_on(h1, h2, g);
        lemma_definition_persists(h1, g, zero);
        lemma_definition_persists(h2, g, positive);
        lemma_definition_persists(h3, g, test);
    }
    assert forall|v: ValueId| f.has_value(v) implies (#[trigger] g.value(v)).ty == f.value(v).ty
        && (f.value(v).kind is Inst ==> g.value(v).kind is Inst) && (!(f.value(v).kind is Inst)
        ==> g.value(v).kind == f.value(v).kind) by {
        assert(g1.has_value(v) && g2.has_value(v));
        assert(g1.value(v) == g2.value(v));
        assert(g.value(v) == g2.value(v));
    }
    assert forall|b: BlockId| #[trigger] f.has_block(b) implies g.block(moved(f, b)).insts
        == f.block(b).insts && g.terminator(moved(f, b)) == f.terminator(b) by {
        let x = moved(f, b);
        assert(g1.has_block(x) && x.0 != entry && x.0 != fast);
        assert(g2.has_block(x));
        assert(g2.block(x) == g1.block(x));
        assert(g4.has_block(x) && g5.has_block(x) && g6.has_block(x) && g7.has_block(x)
            && h1.has_block(x) && h2.has_block(x) && g8.has_block(x) && g9.has_block(x)
            && g10.has_block(x));
        assert(g7.block(x) == g2.block(x));
        assert(g8.block(x) == g7.block(x));
        assert(g.block(x) == g8.block(x));
    }
    assert(g9.has_block(BlockId(entry)) && g10.has_block(BlockId(entry)));
    assert(g.block(BlockId(entry)) == g9.block(BlockId(entry)));
    assert(g4.block(BlockId(entry)).insts == Seq::<InstView>::empty());
}

// ---------------------------------------------------------------------------
// Runs
// ---------------------------------------------------------------------------

/// A call that is known to return returns nothing else.
pub proof fn lemma_only_outcome<D, M>(
    f: FuncView,
    m: Meaning<D, M>,
    args: Map<ValueId, D>,
    memory: M,
    n: nat,
    r: State<D, M>,
    out: State<D, M>,
)
    requires
        r is Returned,
        semantics::steps(f, m, semantics::start(f, m, args, memory), n) == r,
    ensures
        semantics::yields(f, m, args, memory, out) == (out == r),
{
    let s = semantics::start(f, m, args, memory);
    if semantics::yields(f, m, args, memory, out) {
        let k = choose|k: nat| #[trigger] semantics::steps(f, m, s, k) == out;
        if k <= n {
            semantics::lemma_steps_add(f, m, s, k, (n - k) as nat);
            semantics::returned_runs_stay(f, m, out, (n - k) as nat);
        } else {
            semantics::lemma_steps_add(f, m, s, n, (k - n) as nat);
            semantics::returned_runs_stay(f, m, r, (k - n) as nat);
        }
    }
}

/// The state of the new function that goes with one of the old function.
pub open spec fn goes_with<D, M>(f: FuncView, s: State<D, M>, t: State<D, M>) -> bool {
    match (s, t) {
        (
            State::Running { block, env, memory },
            State::Running { block: other, env: data, memory: mem },
        ) => f.has_block(block) && other == moved(f, block) && memory == mem && forall|v: ValueId|
            f.has_value(v) ==> #[trigger] env[v] == data[v],
        (State::Running { .. }, _) => false,
        (_, State::Running { .. }) => false,
        _ => s == t,
    }
}

proof fn lemma_goes_on<D, M>(
    f: FuncView,
    g: FuncView,
    m: Meaning<D, M>,
    c: Candidate,
    s: State<D, M>,
    t: State<D, M>,
)
    requires
        verify::valid(f),
        entered_once(f),
        piecewise_expr::all_plain(f),
        has_fast_path(f, g, c),
        goes_with(f, s, t),
    ensures
        goes_with(f, semantics::step(f, m, s), semantics::step(g, m, t)),
{
    match (s, t) {
        (
            State::Running { block, env, memory },
            State::Running { block: other, env: data, memory: _ },
        ) => {
            let insts = f.block(block).insts;
            let n = insts.len() as int;
            let unread = Set::new(|v: ValueId| !f.has_value(v));
            assert(g.block(other).insts == insts);
            assert forall|i: int| 0 <= i < n implies (#[trigger] insts[i]).kind is Phi
                || semantics::ignores(insts[i].kind, unread) by {
                assert(f.has_inst(block, i));
                assert(f.inst(block, i) == insts[i]);
                query::lemma_inst_wf(f, block, i);
                let kind = insts[i].kind;
                assert forall|k: int| 0 <= k < edit::operands(kind).len() implies !unread.contains(
                    #[trigger] edit::operands(kind)[k],
                ) by {
                    if edit::operands(kind)[k].0 >= f.values.len() {
                        verify::lemma_operand_out_of_range(
                            kind,
                            f.blocks.len(),
                            f.values.len(),
                            k,
                        );
                    }
                }
            }
            assert(semantics::alike(env, data, unread));
            semantics::lemma_executed_alike(m, insts, n, env, data, memory, unread);
            let (x, mem) = semantics::executed(m, insts, n, env, memory);
            let (y, _) = semantics::executed(m, insts, n, data, memory);
            assert forall|v: ValueId| f.has_value(v) implies #[trigger] x[v] == y[v] by {
                assert(!unread.contains(v));
            }
            query::lemma_terminator_wf(f, block);
            let reads = edit::terminator_reads(f.terminator(block));
            if reads.len() > 0 {
                assert(f.has_value(reads[0]));
                assert(x[reads[0]] == y[reads[0]]);
            }
            assert(verify::block_valid(f, block));
            match next_block(m, f.terminator(block), x) {
                Some(to) => {
                    threading_laws::lemma_succ(f.terminator(block), to);
                    assert(cfg::edge(f, block, to));
                    assert(to != f.entry);
                    assert(f.has_block(to));
                    let list = f.block(to).insts;
                    assert(g.block(moved(f, to)).insts == list);
                    assert forall|i: int| 0 <= i < list.len() implies !((
                    #[trigger] list[i]).kind is Phi) || list[i].result is None by {
                        assert(f.has_inst(to, i));
                        assert(f.inst(to, i) == list[i]);
                    }
                    let k = list.len() as int;
                    semantics::lemma_nothing_assigned(list, k, block, x);
                    semantics::lemma_nothing_assigned(list, k, other, y);
                },
                None => {},
            }
        },
        _ => {},
    }
}

proof fn lemma_lockstep<D, M>(
    f: FuncView,
    g: FuncView,
    m: Meaning<D, M>,
    c: Candidate,
    s: State<D, M>,
    t: State<D, M>,
    n: nat,
)
    requires
        verify::valid(f),
        entered_once(f),
        piecewise_expr::all_plain(f),
        has_fast_path(f, g, c),
        goes_with(f, s, t),
    ensures
        goes_with(f, semantics::steps(f, m, s, n), semantics::steps(g, m, t, n)),
    decreases n,
{
    if n > 0 {
        lemma_lockstep(f, g, m, c, s, t, (n - 1) as nat);
        lemma_goes_on(
            f,
            g,
            m,
            c,
            semantics::steps(f, m, s, (n - 1) as nat),
            semantics::steps(g, m, t, (n - 1) as nat),
        );
    }
}

/// Whether the fast path is taken.
pub open spec fn takes_fast_path(c: Candidate, input: i32, selector: i32) -> bool {
    c.minimum <= selector <= c.maximum && (c.kind == ScaleKind::SignedDivide ==> input >= 0)
}

/// What a block that only computes does.
proof fn lemma_computing_block<D, M>(
    g: FuncView,
    m: Meaning<D, M>,
    b: BlockId,
    env: Map<ValueId, D>,
    memory: M,
)
    requires
        verify::valid(g),
        fits(g),
        entered_once(g),
        m.computes_apart_from_memory(),
        g.has_block(b),
        cfg::reachable(g, b),
        computes(g.block(b).insts),
        ssa::knows(g, m, b, 0, env),
    ensures
        ({
            let n = g.block(b).insts.len() as int;
            let (y, mem) = semantics::executed(m, g.block(b).insts, n, env, memory);
            &&& mem == memory
            &&& ssa::knows(g, m, b, n, y)
            &&& constants_kept(g, m, y)
            &&& forall|v: ValueId|
                !(g.value(v).kind matches ValueKindView::Inst(owner, _) && owner == b)
                    ==> #[trigger] y[v] == env[v]
        }),
{
    let insts = g.block(b).insts;
    let n = insts.len() as int;
    let y = semantics::executed(m, insts, n, env, memory).0;
    store_laws::lemma_plain_memory(m, insts, n, env, memory);
    ssa::lemma_known_at_end(g, m, b, n, env, memory);
    assert(constants_kept(g, m, y)) by {
        reveal(ssa::knows);
    }
    assert forall|v: ValueId|
        !(g.value(v).kind matches ValueKindView::Inst(owner, _) && owner == b) implies
        #[trigger] y[v] == env[v] by {
        store_laws::lemma_block_leaves(g, m, b, n, env, memory, v);
    }
}

proof fn lemma_range_tested<D, M>(
    g: FuncView,
    m: Meaning<D, M>,
    number: spec_fn(D) -> i32,
    c: Candidate,
    b: BlockId,
    n: int,
    y: Map<ValueId, D>,
    memory: M,
    test: ValueId,
)
    requires
        verify::valid(g),
        fits(g),
        scales_integers(m, number),
        cfg::reachable(g, b),
        ssa::knows(g, m, b, n, y),
        ssa::is_known(g, test, b, n),
        tests_range(g, c, test),
    ensures
        (m.truth)(y[test]) == (c.minimum <= number(y[c.selector]) <= c.maximum),
{
    let (_, a, d) = patterns::binary_of(g, test)->Some_0;
    integer_laws::lemma_binary_known(g, m, b, n, y, test, memory);
    integer_laws::lemma_compare_known(g, m, b, n, y, a, memory);
    integer_laws::lemma_compare_known(g, m, b, n, y, d, memory);
    assert(constants_kept(g, m, y)) by {
        reveal(ssa::knows);
    }
    let low = patterns::compare_of(g, a)->Some_0.2;
    let high = patterns::compare_of(g, d)->Some_0.2;
    integer_laws::lemma_const_number(g, m, number, y, low);
    integer_laws::lemma_const_number(g, m, number, y, high);
    assert(y[test] == m.boolean((m.truth)(y[a]) && (m.truth)(y[d])));
}

/// The first step of the new function.
proof fn lemma_first_step<D, M>(
    f: FuncView,
    g: FuncView,
    m: Meaning<D, M>,
    number: spec_fn(D) -> i32,
    c: Candidate,
    args: Map<ValueId, D>,
    memory: M,
) -> (y: Map<ValueId, D>)
    requires
        verify::valid(f),
        verify::valid(g),
        fits(g),
        entered_once(g),
        m.computes_apart_from_memory(),
        scales_integers(m, number),
        has_fast_path(f, g, c),
        f.blocks.len() < usize::MAX - 1,
        !query::has_phi(f.block(f.entry).insts),
        is_param(f, c.input),
        is_param(f, c.selector),
    ensures
        ({
            let fast = BlockId((f.blocks.len() + 1) as usize);
            let there = if takes_fast_path(c, number(args[c.input]), number(args[c.selector])) {
                fast
            } else {
                f.next_block()
            };
            &&& semantics::step(g, m, semantics::start(g, m, args, memory)) == (State::Running {
                block: there,
                env: y,
                memory,
            })
            &&& forall|v: ValueId|
                f.has_value(v) ==> #[trigger] y[v] == semantics::initial(f, m, args)[v]
            &&& cfg::reachable(g, there)
            &&& ssa::knows(g, m, there, 0, y)
        }),
{
    let b = f.entry;
    let env = semantics::initial(g, m, args);
    let n = g.block(b).insts.len() as int;
    ssa::lemma_known_at_start(g, m, args);
    lemma_computing_block(g, m, b, env, memory);
    let y = semantics::executed(m, g.block(b).insts, n, env, memory).0;
    assert(g.value(c.input).kind is Param && g.value(c.selector).kind is Param);
    assert(y[c.input] == args[c.input]);
    assert(y[c.selector] == args[c.selector]);
    query::lemma_terminator_wf(g, b);
    assert(verify::block_valid(g, b));
    let reads = edit::terminator_reads(g.terminator(b));
    let test = reads[0];
    assert(verify::available(g, reads[0], b, verify::block_end(g, b)));
    ssa::lemma_available_is_known(g, test, b, n);
    if c.kind == ScaleKind::Left {
        lemma_range_tested(g, m, number, c, b, n, y, memory, test);
    } else {
        let (_, inside, positive) = patterns::binary_of(g, test)->Some_0;
        integer_laws::lemma_binary_known(g, m, b, n, y, test, memory);
        lemma_range_tested(g, m, number, c, b, n, y, memory, inside);
        integer_laws::lemma_compare_known(g, m, b, n, y, positive, memory);
        let zero = patterns::compare_of(g, positive)->Some_0.2;
        integer_laws::lemma_const_number(g, m, number, y, zero);
        assert(y[test] == m.boolean((m.truth)(y[inside]) && (m.truth)(y[positive])));
    }
    let fast = BlockId((f.blocks.len() + 1) as usize);
    let there = if takes_fast_path(c, number(args[c.input]), number(args[c.selector])) {
        fast
    } else {
        f.next_block()
    };
    assert(next_block(m, g.terminator(b), y) == Some(there));
    ssa::lemma_known_on_arrival(g, m, b, there, y);
    let list = g.block(there).insts;
    assert forall|i: int| 0 <= i < list.len() implies !((#[trigger] list[i]).kind is Phi)
        || list[i].result is None by {
        if there == f.next_block() {
            assert(f.has_block(b));
            assert(list == f.block(b).insts);
        }
    }
    semantics::lemma_nothing_assigned(list, list.len() as int, b, y);
    assert forall|v: ValueId| f.has_value(v) implies #[trigger] y[v] == semantics::initial(
        f,
        m,
        args,
    )[v] by {
        assert(g.value(v).ty == f.value(v).ty);
        if f.value(v).kind is Inst {
            lemma_moved_value(f, g, m, c, b, n, env, memory, v);
        }
    }
    y
}

/// What the old function computes, the entry of the new one does not.
proof fn lemma_moved_value<D, M>(
    f: FuncView,
    g: FuncView,
    m: Meaning<D, M>,
    c: Candidate,
    b: BlockId,
    n: int,
    env: Map<ValueId, D>,
    memory: M,
    v: ValueId,
)
    requires
        verify::valid(f),
        verify::valid(g),
        has_fast_path(f, g, c),
        f.blocks.len() < usize::MAX - 1,
        b == f.entry,
        n == g.block(b).insts.len(),
        f.has_value(v),
        f.value(v).kind is Inst,
        new_values_only(f, g.block(b).insts),
    ensures
        semantics::executed(m, g.block(b).insts, n, env, memory).0[v] == env[v],
{
    store_laws::lemma_not_computed(m, g.block(b).insts, n, env, memory, v);
}

/// The block defines values that the old function does not have.
pub open spec fn new_values_only(f: FuncView, insts: Seq<InstView>) -> bool {
    forall|i: int|
        0 <= i < insts.len() ==> ((#[trigger] insts[i]).result matches Some(v) ==> !f.has_value(v))
}

/// The fast path keeps what every call returns, wherever integer operations
/// compute with numbers of 32 bits and the arguments are integers.
pub proof fn fast_paths_keep_the_meaning<D, M>(
    f: FuncView,
    m: Meaning<D, M>,
    number: spec_fn(D) -> i32,
    args: Map<ValueId, D>,
    memory: M,
    out: State<D, M>,
)
    requires
        verify::valid(f),
        fits(f),
        m.computes_apart_from_memory(),
        scales_integers(m, number),
        forall|k: int|
            0 <= k < f.params.len() ==> is_param(f, #[trigger] f.params[k]) && args[f.params[k]]
                == m.integer(number(args[f.params[k]])),
    ensures
        semantics::yields(piecewise_expr::folded(f), m, args, memory, out) == semantics::yields(
            f,
            m,
            args,
            memory,
            out,
        ),
{
    let g = piecewise_expr::folded(f);
    if let Some(c) = piecewise_expr::candidate_of(f) {
        if !piecewise_expr::entry_is_target(f) && verify::valid(
            piecewise_expr::fast_path_added(f, c),
        ) {
            lemma_fast_path(f, c);
            assert(is_param(f, f.params[0]) && is_param(f, f.params[1]));
            assert(entered_once(f));
            lemma_new_function(f, g, c);
            let number_in = number(args[c.input]);
            let number_of = number(args[c.selector]);
            let y = lemma_first_step(f, g, m, number, c, args, memory);
            let s = semantics::start(f, m, args, memory);
            let t = semantics::start(g, m, args, memory);
            semantics::lemma_few_steps(g, m, t);
            if takes_fast_path(c, number_in, number_of) {
                lemma_candidate(f, c, number_of);
                ssa::lemma_known_at_start(f, m, args);
                let (n, d) = lemma_returns(
                    f,
                    m,
                    number,
                    f.entry,
                    semantics::initial(f, m, args),
                    memory,
                    args,
                    c.input,
                    c.selector,
                    Seq::empty(),
                    f.blocks.len() + 1,
                );
                let r = State::<D, M>::Returned { value: Some(d), memory };
                lemma_only_outcome(f, m, args, memory, n, r, out);
                lemma_fast_return(f, g, m, number, c, y, args, memory, d);
                assert(semantics::steps(g, m, t, 2) == r);
                lemma_only_outcome(g, m, args, memory, 2, r, out);
            } else {
                let t1 = semantics::step(g, m, t);
                assert(goes_with(f, s, t1));
                if semantics::yields(f, m, args, memory, out) {
                    let n = choose|n: nat| #[trigger] semantics::steps(f, m, s, n) == out;
                    lemma_lockstep(f, g, m, c, s, t1, n);
                    semantics::lemma_steps_add(g, m, t, 1, n);
                    assert(semantics::steps(g, m, t, 1 + n) == out);
                }
                if semantics::yields(g, m, args, memory, out) {
                    let n = choose|n: nat| #[trigger] semantics::steps(g, m, t, n) == out;
                    assert(n > 0);
                    lemma_lockstep(f, g, m, c, s, t1, (n - 1) as nat);
                    semantics::lemma_steps_add(g, m, t, 1, (n - 1) as nat);
                    assert(semantics::steps(f, m, s, (n - 1) as nat) == out);
                }
            }
        }
    }
}

/// The new function fits the machine and is entered at its entry only.
proof fn lemma_new_function(f: FuncView, g: FuncView, c: Candidate)
    requires
        verify::valid(f),
        fits(f),
        entered_once(f),
        piecewise_expr::is_looked_at(f),
        has_fast_path(f, g, c),
        verify::valid(g),
    ensures
        fits(g),
        entered_once(g),
        !query::has_phi(f.block(f.entry).insts),
{
    let n = f.blocks.len() as int;
    let fast = BlockId((n + 1) as usize);
    assert forall|b: BlockId| #[trigger] g.has_block(b) implies g.block(b).insts.len()
        <= usize::MAX && !cfg::edge(g, b, g.entry) by {
        threading_laws::lemma_succ(g.terminator(b), g.entry);
        if b == f.entry || b == fast {
        } else if b == f.next_block() {
            assert(f.has_block(f.entry));
            assert(moved(f, f.entry) == b);
            assert(!cfg::edge(f, f.entry, f.entry));
        } else {
            assert(f.has_block(b));
            assert(moved(f, b) == b);
            assert(!cfg::edge(f, b, f.entry));
        }
    }
    if query::has_phi(f.block(f.entry).insts) {
        let insts = f.block(f.entry).insts;
        let i = choose|i: int| 0 <= i < insts.len() && (#[trigger] insts[i]).kind is Phi;
        assert(f.has_inst(f.entry, i));
        assert(f.inst(f.entry, i) == insts[i]);
    }
}

/// The fast path returns the scaled input.
proof fn lemma_fast_return<D, M>(
    f: FuncView,
    g: FuncView,
    m: Meaning<D, M>,
    number: spec_fn(D) -> i32,
    c: Candidate,
    y: Map<ValueId, D>,
    args: Map<ValueId, D>,
    memory: M,
    d: D,
)
    requires
        verify::valid(g),
        fits(g),
        entered_once(g),
        m.computes_apart_from_memory(),
        scales_integers(m, number),
        has_fast_path(f, g, c),
        f.blocks.len() < usize::MAX - 1,
        is_param(f, c.input),
        is_param(f, c.selector),
        y[c.input] == args[c.input],
        y[c.selector] == args[c.selector],
        cfg::reachable(g, BlockId((f.blocks.len() + 1) as usize)),
        ssa::knows(g, m, BlockId((f.blocks.len() + 1) as usize), 0, y),
        0 <= number(args[c.selector]) <= 31,
        takes_fast_path(c, number(args[c.input]), number(args[c.selector])),
        args[c.input] == m.integer(number(args[c.input])),
        is_value_of(
            m,
            number,
            ReturnExpr::Scale { kind: c.kind, shift: number(args[c.selector]) as u32 },
            args[c.input],
            d,
        ) || (number(args[c.selector]) == 0 && d == args[c.input]),
    ensures
        semantics::step(
            g,
            m,
            State::Running { block: BlockId((f.blocks.len() + 1) as usize), env: y, memory },
        ) == (State::Returned { value: Some(d), memory }),
{
    let b = BlockId((f.blocks.len() + 1) as usize);
    let n = g.block(b).insts.len() as int;
    lemma_computing_block(g, m, b, y, memory);
    let z = semantics::executed(m, g.block(b).insts, n, y, memory).0;
    assert(g.value(c.input).kind is Param && g.value(c.selector).kind is Param);
    assert(z[c.input] == y[c.input] && z[c.selector] == y[c.selector]);
    query::lemma_terminator_wf(g, b);
    assert(verify::block_valid(g, b));
    let reads = edit::terminator_reads(g.terminator(b));
    assert(verify::available(g, reads[0], b, verify::block_end(g, b)));
    ssa::lemma_available_is_known(g, reads[0], b, n);
    integer_laws::lemma_binary_known(g, m, b, n, z, reads[0], memory);
    let x = number(args[c.input]);
    assert(x << 0u32 == x) by (bit_vector);
    assert(x >> 0u32 == x) by (bit_vector);
}

} // verus!
