//! The helper, block by block.
use vstd::prelude::*;

use crate::emit;
use crate::ir::{
    BinaryOp, BlockId, BlockView, CompareOp, Const, FuncView, InstView, Terminator, Type, ValueId,
    ValueKindView, ValueView,
};
use crate::pass::odd_chain_group::helper;
use crate::pass::odd_chain_group::helper::{
    Adding, Aggregate, Constants, Copies, Four, Lookup, Outcome, Search, Three, ADD_BODY, ADD_LOOP,
    AGGREGATE, BLOCKS, CACHE_BOUND, CACHE_FAILURE, CACHE_LOOKUP, CACHE_STORE_DECIDE,
    CACHE_STORE_DONE, CACHE_STORE_FAILURE, CACHE_STORE_SELECT, CACHE_STORE_SUCCESS, CACHE_SUCCESS,
    COPIES, COPIES_BODY, COPIES_DONE, ENTRY, EVEN, EXIT, FAILED_VALUE, FAILURE, ODD_FOUR, ODD_THREE,
    OUTCOME, OUTCOME_DONE, OUTER, OUTER_LATCH, PARITY, SUCCESS, SUCCESSFUL_VALUE, VALUE_DONE,
};
use crate::pass::odd_chain_group::recognize;
use crate::pass::odd_chain_group::recognize::RecurrenceKind;
use crate::pass::wrapper_laws::{at, defines, does, v};
use crate::util;

verus! {

/// The function has the blocks of the helper, and `n` values.
pub open spec fn has_size(f: FuncView, n: int) -> bool {
    f.blocks.len() == BLOCKS && f.values.len() == n && 0 <= n < 1000
}

/// Everything but the given blocks stays, and values are only added.
pub open spec fn keeps(f: FuncView, g: FuncView, touched: Set<int>) -> bool {
    &&& g.entry == f.entry
    &&& g.params == f.params
    &&& g.blocks.len() == f.blocks.len()
    &&& g.values.len() >= f.values.len()
    &&& forall|c: int|
        0 <= c < f.blocks.len() && !touched.contains(c) ==> #[trigger] g.blocks[c] == f.blocks[c]
    &&& forall|i: int| 0 <= i < f.values.len() ==> #[trigger] g.values[i] == f.values[i]
}

pub open spec fn is_empty_at(f: FuncView, b: usize) -> bool {
    at(f, b as int) == Seq::<InstView>::empty()
}

/// The value is the instruction at the place.
pub open spec fn sits(f: FuncView, id: int, b: usize, i: usize) -> bool {
    f.values[id].kind == ValueKindView::Inst(BlockId(b), i)
}

/// The blocks of this part, whose values begin with `n`.
pub open spec fn search_stands(g: FuncView, k: Constants, n: int) -> bool {
    &&& at(g, ENTRY as int) == seq![
        defines(n + 0, emit::binary(BinaryOp::Idiv, k.limit, k.two)),
    ]
    &&& g.terminator(BlockId(ENTRY)) == Some(Terminator::Jump(BlockId(OUTER)))
    &&& at(g, OUTER as int) == seq![
        defines(n + 1, emit::phi(Seq::empty())),
        defines(n + 2, emit::phi(Seq::empty())),
        defines(n + 3, emit::comparison(CompareOp::Le, v(n + 1), k.limit)),
    ]
    &&& g.terminator(BlockId(OUTER)) == Some(emit::branch(v(n + 3), OUTCOME, EXIT))
    &&& at(g, OUTCOME as int) == seq![
        defines(n + 4, emit::phi(Seq::empty())),
        defines(n + 5, emit::phi(Seq::empty())),
        defines(n + 6, emit::comparison(CompareOp::Eq, v(n + 4), k.one)),
    ]
    &&& g.terminator(BlockId(OUTCOME)) == Some(emit::branch(v(n + 6), SUCCESS, PARITY))
    &&& is_empty_at(g, SUCCESS)
    &&& g.terminator(BlockId(SUCCESS)) == Some(Terminator::Jump(BlockId(OUTCOME_DONE)))
    &&& at(g, PARITY as int) == seq![
        defines(n + 7, emit::binary(BinaryOp::Iand, v(n + 4), k.one)),
        defines(n + 8, emit::comparison(CompareOp::Eq, v(n + 7), k.zero)),
    ]
    &&& g.terminator(BlockId(PARITY)) == Some(emit::branch(v(n + 8), EVEN, CACHE_BOUND))
    &&& at(g, EVEN as int) == seq![
        defines(n + 9, emit::binary(BinaryOp::Idiv, v(n + 4), k.two)),
        defines(n + 10, emit::binary(BinaryOp::Iadd, v(n + 5), k.one)),
    ]
    &&& g.terminator(BlockId(EVEN)) == Some(Terminator::Jump(BlockId(OUTCOME)))
    &&& sits(g, n + 1, OUTER, 0)
    &&& sits(g, n + 2, OUTER, 1)
    &&& sits(g, n + 4, OUTCOME, 0)
    &&& sits(g, n + 5, OUTCOME, 1)
}

#[verifier::rlimit(60)]
proof fn lemma_search(f: FuncView, k: Constants, n: int)
    requires
        has_size(f, n),
        n < 900,
        is_empty_at(f, ENTRY),
        is_empty_at(f, OUTER),
        is_empty_at(f, OUTCOME),
        is_empty_at(f, SUCCESS),
        is_empty_at(f, PARITY),
        is_empty_at(f, EVEN),
    ensures
        ({
            let (g, r) = helper::search_built(f, k);
            &&& r == (Search { half: v(n + 0), odd: v(n + 1), answer: v(n + 2), state: v(n + 4), depth: v(n + 5), half_state: v(n + 9), even_depth: v(n + 10) })
            &&& has_size(g, n + 11)
            &&& search_stands(g, k, n)
            &&& keeps(f, g, set![ENTRY as int, OUTER as int, OUTCOME as int, SUCCESS as int, PARITY as int, EVEN as int])
        }),
{
    reveal(helper::search_built);
    reveal(emit::emitted);
    reveal(emit::effected);
    reveal(emit::ended);
    let (g, r) = helper::search_built(f, k);
    assert(at(g, ENTRY as int) =~= seq![
        defines(n + 0, emit::binary(BinaryOp::Idiv, k.limit, k.two)),
    ]);
    assert(at(g, OUTER as int) =~= seq![
        defines(n + 1, emit::phi(Seq::empty())),
        defines(n + 2, emit::phi(Seq::empty())),
        defines(n + 3, emit::comparison(CompareOp::Le, v(n + 1), k.limit)),
    ]);
    assert(at(g, OUTCOME as int) =~= seq![
        defines(n + 4, emit::phi(Seq::empty())),
        defines(n + 5, emit::phi(Seq::empty())),
        defines(n + 6, emit::comparison(CompareOp::Eq, v(n + 4), k.one)),
    ]);
    assert(at(g, SUCCESS as int) == at(f, SUCCESS as int));
    assert(at(g, PARITY as int) =~= seq![
        defines(n + 7, emit::binary(BinaryOp::Iand, v(n + 4), k.one)),
        defines(n + 8, emit::comparison(CompareOp::Eq, v(n + 7), k.zero)),
    ]);
    assert(at(g, EVEN as int) =~= seq![
        defines(n + 9, emit::binary(BinaryOp::Idiv, v(n + 4), k.two)),
        defines(n + 10, emit::binary(BinaryOp::Iadd, v(n + 5), k.one)),
    ]);
}

/// The blocks of this part, whose values begin with `n`.
pub open spec fn lookup_stands(g: FuncView, k: Constants, s: Search, n: int) -> bool {
    &&& at(g, CACHE_BOUND as int) == seq![
        defines(n + 0, emit::comparison(CompareOp::Lt, s.state, s.odd)),
        defines(n + 1, emit::comparison(CompareOp::Le, s.state, k.cache_state_limit)),
        defines(n + 2, emit::binary(BinaryOp::And, v(n + 0), v(n + 1))),
    ]
    &&& g.terminator(BlockId(CACHE_BOUND)) == Some(emit::branch(v(n + 2), CACHE_LOOKUP, ODD_THREE))
    &&& at(g, CACHE_LOOKUP as int) == seq![
        defines(n + 3, emit::binary(BinaryOp::Idiv, s.state, k.two)),
        defines(n + 4, emit::element(k.cache_ptr, k.zero, v(n + 3))),
        defines(n + 5, emit::load(v(n + 4))),
        defines(n + 6, emit::comparison(CompareOp::Lt, v(n + 5), k.zero)),
    ]
    &&& g.terminator(BlockId(CACHE_LOOKUP)) == Some(emit::branch(v(n + 6), CACHE_FAILURE, CACHE_SUCCESS))
    &&& at(g, CACHE_SUCCESS as int) == seq![
        defines(n + 7, emit::binary(BinaryOp::Isub, v(n + 5), k.one)),
        defines(n + 8, emit::binary(BinaryOp::Iadd, s.depth, v(n + 7))),
    ]
    &&& g.terminator(BlockId(CACHE_SUCCESS)) == Some(Terminator::Jump(BlockId(OUTCOME_DONE)))
    &&& is_empty_at(g, CACHE_FAILURE)
    &&& g.terminator(BlockId(CACHE_FAILURE)) == Some(Terminator::Jump(BlockId(OUTCOME_DONE)))
}

#[verifier::rlimit(60)]
proof fn lemma_lookup(f: FuncView, k: Constants, s: Search, n: int)
    requires
        has_size(f, n),
        n < 900,
        is_empty_at(f, CACHE_BOUND),
        is_empty_at(f, CACHE_LOOKUP),
        is_empty_at(f, CACHE_SUCCESS),
        is_empty_at(f, CACHE_FAILURE),
    ensures
        ({
            let (g, r) = helper::lookup_built(f, k, s);
            &&& r == (Lookup { cached_outcome: v(n + 8) })
            &&& has_size(g, n + 9)
            &&& lookup_stands(g, k, s, n)
            &&& keeps(f, g, set![CACHE_BOUND as int, CACHE_LOOKUP as int, CACHE_SUCCESS as int, CACHE_FAILURE as int])
        }),
{
    reveal(helper::lookup_built);
    reveal(emit::emitted);
    reveal(emit::effected);
    reveal(emit::ended);
    let (g, r) = helper::lookup_built(f, k, s);
    assert(at(g, CACHE_BOUND as int) =~= seq![
        defines(n + 0, emit::comparison(CompareOp::Lt, s.state, s.odd)),
        defines(n + 1, emit::comparison(CompareOp::Le, s.state, k.cache_state_limit)),
        defines(n + 2, emit::binary(BinaryOp::And, v(n + 0), v(n + 1))),
    ]);
    assert(at(g, CACHE_LOOKUP as int) =~= seq![
        defines(n + 3, emit::binary(BinaryOp::Idiv, s.state, k.two)),
        defines(n + 4, emit::element(k.cache_ptr, k.zero, v(n + 3))),
        defines(n + 5, emit::load(v(n + 4))),
        defines(n + 6, emit::comparison(CompareOp::Lt, v(n + 5), k.zero)),
    ]);
    assert(at(g, CACHE_SUCCESS as int) =~= seq![
        defines(n + 7, emit::binary(BinaryOp::Isub, v(n + 5), k.one)),
        defines(n + 8, emit::binary(BinaryOp::Iadd, s.depth, v(n + 7))),
    ]);
    assert(at(g, CACHE_FAILURE as int) == at(f, CACHE_FAILURE as int));
}

/// The blocks of this part, whose values begin with `n`.
pub open spec fn three_stands(g: FuncView, k: Constants, s: Search, next: usize, n: int) -> bool {
    &&& at(g, ODD_THREE as int) == seq![
        defines(n + 0, emit::binary(BinaryOp::Imul, s.state, k.three)),
        defines(n + 1, emit::binary(BinaryOp::Iadd, v(n + 0), k.one)),
        defines(n + 2, emit::binary(BinaryOp::Iadd, s.depth, k.one)),
        defines(n + 3, emit::comparison(CompareOp::Le, v(n + 1), k.limit)),
    ]
    &&& g.terminator(BlockId(ODD_THREE)) == Some(emit::branch(v(n + 3), OUTCOME, next))
}

#[verifier::rlimit(60)]
proof fn lemma_three(f: FuncView, k: Constants, s: Search, next: usize, n: int)
    requires
        has_size(f, n),
        n < 900,
        is_empty_at(f, ODD_THREE),
    ensures
        ({
            let (g, r) = helper::three_built(f, k, s, next);
            &&& r == (Three { next_three: v(n + 1), three_depth: v(n + 2) })
            &&& has_size(g, n + 4)
            &&& three_stands(g, k, s, next, n)
            &&& keeps(f, g, set![ODD_THREE as int])
        }),
{
    reveal(helper::three_built);
    reveal(emit::emitted);
    reveal(emit::effected);
    reveal(emit::ended);
    let (g, r) = helper::three_built(f, k, s, next);
    assert(at(g, ODD_THREE as int) =~= seq![
        defines(n + 0, emit::binary(BinaryOp::Imul, s.state, k.three)),
        defines(n + 1, emit::binary(BinaryOp::Iadd, v(n + 0), k.one)),
        defines(n + 2, emit::binary(BinaryOp::Iadd, s.depth, k.one)),
        defines(n + 3, emit::comparison(CompareOp::Le, v(n + 1), k.limit)),
    ]);
}

/// The blocks of this part, whose values begin with `n`.
pub open spec fn four_stands(g: FuncView, k: Constants, s: Search, n: int) -> bool {
    &&& at(g, ODD_FOUR as int) == seq![
        defines(n + 0, emit::binary(BinaryOp::Imul, s.state, k.four)),
        defines(n + 1, emit::binary(BinaryOp::Iadd, v(n + 0), k.one)),
        defines(n + 2, emit::binary(BinaryOp::Iadd, s.depth, k.one)),
        defines(n + 3, emit::comparison(CompareOp::Le, v(n + 1), k.limit)),
    ]
    &&& g.terminator(BlockId(ODD_FOUR)) == Some(emit::branch(v(n + 3), OUTCOME, FAILURE))
}

#[verifier::rlimit(60)]
proof fn lemma_four(f: FuncView, k: Constants, s: Search, n: int)
    requires
        has_size(f, n),
        n < 900,
        is_empty_at(f, ODD_FOUR),
    ensures
        ({
            let (g, r) = helper::four_built(f, k, s);
            &&& r == (Four { next_four: v(n + 1), four_depth: v(n + 2) })
            &&& has_size(g, n + 4)
            &&& four_stands(g, k, s, n)
            &&& keeps(f, g, set![ODD_FOUR as int])
        }),
{
    reveal(helper::four_built);
    reveal(emit::emitted);
    reveal(emit::effected);
    reveal(emit::ended);
    let (g, r) = helper::four_built(f, k, s);
    assert(at(g, ODD_FOUR as int) =~= seq![
        defines(n + 0, emit::binary(BinaryOp::Imul, s.state, k.four)),
        defines(n + 1, emit::binary(BinaryOp::Iadd, v(n + 0), k.one)),
        defines(n + 2, emit::binary(BinaryOp::Iadd, s.depth, k.one)),
        defines(n + 3, emit::comparison(CompareOp::Le, v(n + 1), k.limit)),
    ]);
}

/// The blocks of this part, whose values begin with `n`.
pub open spec fn outcome_stands(g: FuncView, k: Constants, s: Search, l: Lookup, n: int) -> bool {
    &&& is_empty_at(g, FAILURE)
    &&& g.terminator(BlockId(FAILURE)) == Some(Terminator::Jump(BlockId(OUTCOME_DONE)))
    &&& at(g, OUTCOME_DONE as int) == seq![
        defines(n + 0, emit::phi(seq![(BlockId(SUCCESS), s.depth), (BlockId(FAILURE), k.minus_one), (BlockId(CACHE_SUCCESS), l.cached_outcome), (BlockId(CACHE_FAILURE), k.minus_one)])),
    ]
    &&& g.terminator(BlockId(OUTCOME_DONE)) == Some(Terminator::Jump(BlockId(CACHE_STORE_DECIDE)))
    &&& at(g, CACHE_STORE_DECIDE as int) == seq![
        defines(n + 1, emit::comparison(CompareOp::Le, s.odd, k.cache_state_limit)),
    ]
    &&& g.terminator(BlockId(CACHE_STORE_DECIDE)) == Some(emit::branch(v(n + 1), CACHE_STORE_SELECT, CACHE_STORE_DONE))
    &&& at(g, CACHE_STORE_SELECT as int) == seq![
        defines(n + 2, emit::binary(BinaryOp::Idiv, s.odd, k.two)),
        defines(n + 3, emit::element(k.cache_ptr, k.zero, v(n + 2))),
        defines(n + 4, emit::comparison(CompareOp::Lt, v(n + 0), k.zero)),
    ]
    &&& g.terminator(BlockId(CACHE_STORE_SELECT)) == Some(emit::branch(v(n + 4), CACHE_STORE_FAILURE, CACHE_STORE_SUCCESS))
    &&& at(g, CACHE_STORE_SUCCESS as int) == seq![
        defines(n + 5, emit::binary(BinaryOp::Iadd, v(n + 0), k.one)),
        does(emit::store(v(n + 3), v(n + 5))),
    ]
    &&& g.terminator(BlockId(CACHE_STORE_SUCCESS)) == Some(Terminator::Jump(BlockId(CACHE_STORE_DONE)))
    &&& at(g, CACHE_STORE_FAILURE as int) == seq![
        does(emit::store(v(n + 3), k.minus_one)),
    ]
    &&& g.terminator(BlockId(CACHE_STORE_FAILURE)) == Some(Terminator::Jump(BlockId(CACHE_STORE_DONE)))
    &&& is_empty_at(g, CACHE_STORE_DONE)
    &&& g.terminator(BlockId(CACHE_STORE_DONE)) == Some(Terminator::Jump(BlockId(COPIES)))
    &&& sits(g, n + 0, OUTCOME_DONE, 0)
}

#[verifier::rlimit(60)]
proof fn lemma_outcome(f: FuncView, k: Constants, s: Search, l: Lookup, n: int)
    requires
        has_size(f, n),
        n < 900,
        is_empty_at(f, FAILURE),
        is_empty_at(f, OUTCOME_DONE),
        is_empty_at(f, CACHE_STORE_DECIDE),
        is_empty_at(f, CACHE_STORE_SELECT),
        is_empty_at(f, CACHE_STORE_SUCCESS),
        is_empty_at(f, CACHE_STORE_FAILURE),
        is_empty_at(f, CACHE_STORE_DONE),
    ensures
        ({
            let (g, r) = helper::outcome_built(f, k, s, l);
            &&& r == (Outcome { outcome_value: v(n + 0) })
            &&& has_size(g, n + 6)
            &&& outcome_stands(g, k, s, l, n)
            &&& keeps(f, g, set![FAILURE as int, OUTCOME_DONE as int, CACHE_STORE_DECIDE as int, CACHE_STORE_SELECT as int, CACHE_STORE_SUCCESS as int, CACHE_STORE_FAILURE as int, CACHE_STORE_DONE as int])
        }),
{
    reveal(helper::outcome_built);
    reveal(emit::emitted);
    reveal(emit::effected);
    reveal(emit::ended);
    let (g, r) = helper::outcome_built(f, k, s, l);
    assert(at(g, FAILURE as int) == at(f, FAILURE as int));
    assert(at(g, OUTCOME_DONE as int) =~= seq![
        defines(n + 0, emit::phi(seq![(BlockId(SUCCESS), s.depth), (BlockId(FAILURE), k.minus_one), (BlockId(CACHE_SUCCESS), l.cached_outcome), (BlockId(CACHE_FAILURE), k.minus_one)])),
    ]);
    assert(at(g, CACHE_STORE_DECIDE as int) =~= seq![
        defines(n + 1, emit::comparison(CompareOp::Le, s.odd, k.cache_state_limit)),
    ]);
    assert(at(g, CACHE_STORE_SELECT as int) =~= seq![
        defines(n + 2, emit::binary(BinaryOp::Idiv, s.odd, k.two)),
        defines(n + 3, emit::element(k.cache_ptr, k.zero, v(n + 2))),
        defines(n + 4, emit::comparison(CompareOp::Lt, v(n + 0), k.zero)),
    ]);
    assert(at(g, CACHE_STORE_SUCCESS as int) =~= seq![
        defines(n + 5, emit::binary(BinaryOp::Iadd, v(n + 0), k.one)),
        does(emit::store(v(n + 3), v(n + 5))),
    ]);
    assert(at(g, CACHE_STORE_FAILURE as int) =~= seq![
        does(emit::store(v(n + 3), k.minus_one)),
    ]);
    assert(at(g, CACHE_STORE_DONE as int) == at(f, CACHE_STORE_DONE as int));
}

/// The blocks of this part, whose values begin with `n`.
pub open spec fn copies_stands(g: FuncView, k: Constants, s: Search, o: Outcome, n: int) -> bool {
    &&& at(g, COPIES as int) == seq![
        defines(n + 0, emit::phi(Seq::empty())),
        defines(n + 1, emit::phi(Seq::empty())),
        defines(n + 2, emit::comparison(CompareOp::Le, v(n + 0), s.half)),
    ]
    &&& g.terminator(BlockId(COPIES)) == Some(emit::branch(v(n + 2), COPIES_BODY, COPIES_DONE))
    &&& at(g, COPIES_BODY as int) == seq![
        defines(n + 3, emit::binary(BinaryOp::Imul, v(n + 0), k.two)),
        defines(n + 4, emit::binary(BinaryOp::Iadd, v(n + 1), k.one)),
    ]
    &&& g.terminator(BlockId(COPIES_BODY)) == Some(Terminator::Jump(BlockId(COPIES)))
    &&& at(g, COPIES_DONE as int) == seq![
        defines(n + 5, emit::comparison(CompareOp::Lt, o.outcome_value, k.zero)),
    ]
    &&& g.terminator(BlockId(COPIES_DONE)) == Some(emit::branch(v(n + 5), FAILED_VALUE, SUCCESSFUL_VALUE))
    &&& is_empty_at(g, FAILED_VALUE)
    &&& g.terminator(BlockId(FAILED_VALUE)) == Some(Terminator::Jump(BlockId(VALUE_DONE)))
    &&& is_empty_at(g, SUCCESSFUL_VALUE)
    &&& g.terminator(BlockId(SUCCESSFUL_VALUE)) == Some(Terminator::Jump(BlockId(VALUE_DONE)))
    &&& at(g, VALUE_DONE as int) == seq![
        defines(n + 6, emit::phi(seq![(BlockId(FAILED_VALUE), k.failure_value), (BlockId(SUCCESSFUL_VALUE), o.outcome_value)])),
        defines(n + 7, emit::phi(seq![(BlockId(FAILED_VALUE), k.zero), (BlockId(SUCCESSFUL_VALUE), k.one)])),
        defines(n + 8, emit::comparison(CompareOp::Le, v(n + 6), k.safe_base)),
    ]
    &&& g.terminator(BlockId(VALUE_DONE)) == Some(emit::branch(v(n + 8), AGGREGATE, ADD_LOOP))
    &&& sits(g, n + 0, COPIES, 0)
    &&& sits(g, n + 1, COPIES, 1)
    &&& sits(g, n + 6, VALUE_DONE, 0)
    &&& sits(g, n + 7, VALUE_DONE, 1)
}

#[verifier::rlimit(60)]
proof fn lemma_copies(f: FuncView, k: Constants, s: Search, o: Outcome, n: int)
    requires
        has_size(f, n),
        n < 900,
        is_empty_at(f, COPIES),
        is_empty_at(f, COPIES_BODY),
        is_empty_at(f, COPIES_DONE),
        is_empty_at(f, FAILED_VALUE),
        is_empty_at(f, SUCCESSFUL_VALUE),
        is_empty_at(f, VALUE_DONE),
    ensures
        ({
            let (g, r) = helper::copies_built(f, k, s, o);
            &&& r == (Copies { scaled: v(n + 0), copy_count: v(n + 1), doubled: v(n + 3), next_copy_count: v(n + 4), base: v(n + 6), increment: v(n + 7) })
            &&& has_size(g, n + 9)
            &&& copies_stands(g, k, s, o, n)
            &&& keeps(f, g, set![COPIES as int, COPIES_BODY as int, COPIES_DONE as int, FAILED_VALUE as int, SUCCESSFUL_VALUE as int, VALUE_DONE as int])
        }),
{
    reveal(helper::copies_built);
    reveal(emit::emitted);
    reveal(emit::effected);
    reveal(emit::ended);
    let (g, r) = helper::copies_built(f, k, s, o);
    assert(at(g, COPIES as int) =~= seq![
        defines(n + 0, emit::phi(Seq::empty())),
        defines(n + 1, emit::phi(Seq::empty())),
        defines(n + 2, emit::comparison(CompareOp::Le, v(n + 0), s.half)),
    ]);
    assert(at(g, COPIES_BODY as int) =~= seq![
        defines(n + 3, emit::binary(BinaryOp::Imul, v(n + 0), k.two)),
        defines(n + 4, emit::binary(BinaryOp::Iadd, v(n + 1), k.one)),
    ]);
    assert(at(g, COPIES_DONE as int) =~= seq![
        defines(n + 5, emit::comparison(CompareOp::Lt, o.outcome_value, k.zero)),
    ]);
    assert(at(g, FAILED_VALUE as int) == at(f, FAILED_VALUE as int));
    assert(at(g, SUCCESSFUL_VALUE as int) == at(f, SUCCESSFUL_VALUE as int));
    assert(at(g, VALUE_DONE as int) =~= seq![
        defines(n + 6, emit::phi(seq![(BlockId(FAILED_VALUE), k.failure_value), (BlockId(SUCCESSFUL_VALUE), o.outcome_value)])),
        defines(n + 7, emit::phi(seq![(BlockId(FAILED_VALUE), k.zero), (BlockId(SUCCESSFUL_VALUE), k.one)])),
        defines(n + 8, emit::comparison(CompareOp::Le, v(n + 6), k.safe_base)),
    ]);
}

/// The blocks of this part, whose values begin with `n`.
pub open spec fn aggregate_stands(g: FuncView, k: Constants, s: Search, c: Copies, n: int) -> bool {
    &&& at(g, AGGREGATE as int) == seq![
        defines(n + 0, emit::binary(BinaryOp::Isub, c.copy_count, k.one)),
        defines(n + 1, emit::binary(BinaryOp::Imul, c.copy_count, v(n + 0))),
        defines(n + 2, emit::binary(BinaryOp::Idiv, v(n + 1), k.two)),
        defines(n + 3, emit::binary(BinaryOp::Imul, c.base, c.copy_count)),
        defines(n + 4, emit::binary(BinaryOp::Imul, v(n + 2), c.increment)),
        defines(n + 5, emit::binary(BinaryOp::Iadd, v(n + 3), v(n + 4))),
        defines(n + 6, emit::binary(BinaryOp::Iadd, s.answer, v(n + 5))),
        defines(n + 7, emit::binary(BinaryOp::Imod, v(n + 6), k.modulus)),
    ]
    &&& g.terminator(BlockId(AGGREGATE)) == Some(Terminator::Jump(BlockId(OUTER_LATCH)))
}

#[verifier::rlimit(60)]
proof fn lemma_aggregate(f: FuncView, k: Constants, s: Search, c: Copies, n: int)
    requires
        has_size(f, n),
        n < 900,
        is_empty_at(f, AGGREGATE),
    ensures
        ({
            let (g, r) = helper::aggregate_built(f, k, s, c);
            &&& r == (Aggregate { group_reduced: v(n + 7) })
            &&& has_size(g, n + 8)
            &&& aggregate_stands(g, k, s, c, n)
            &&& keeps(f, g, set![AGGREGATE as int])
        }),
{
    reveal(helper::aggregate_built);
    reveal(emit::emitted);
    reveal(emit::effected);
    reveal(emit::ended);
    let (g, r) = helper::aggregate_built(f, k, s, c);
    assert(at(g, AGGREGATE as int) =~= seq![
        defines(n + 0, emit::binary(BinaryOp::Isub, c.copy_count, k.one)),
        defines(n + 1, emit::binary(BinaryOp::Imul, c.copy_count, v(n + 0))),
        defines(n + 2, emit::binary(BinaryOp::Idiv, v(n + 1), k.two)),
        defines(n + 3, emit::binary(BinaryOp::Imul, c.base, c.copy_count)),
        defines(n + 4, emit::binary(BinaryOp::Imul, v(n + 2), c.increment)),
        defines(n + 5, emit::binary(BinaryOp::Iadd, v(n + 3), v(n + 4))),
        defines(n + 6, emit::binary(BinaryOp::Iadd, s.answer, v(n + 5))),
        defines(n + 7, emit::binary(BinaryOp::Imod, v(n + 6), k.modulus)),
    ]);
}

/// The blocks of this part, whose values begin with `n`.
pub open spec fn adding_stands(g: FuncView, k: Constants, s: Search, c: Copies, n: int) -> bool {
    &&& at(g, ADD_LOOP as int) == seq![
        defines(n + 0, emit::phi(Seq::empty())),
        defines(n + 1, emit::phi(Seq::empty())),
        defines(n + 2, emit::comparison(CompareOp::Lt, v(n + 0), c.copy_count)),
    ]
    &&& g.terminator(BlockId(ADD_LOOP)) == Some(emit::branch(v(n + 2), ADD_BODY, OUTER_LATCH))
    &&& at(g, ADD_BODY as int) == seq![
        defines(n + 3, emit::binary(BinaryOp::Imul, v(n + 0), c.increment)),
        defines(n + 4, emit::binary(BinaryOp::Iadd, c.base, v(n + 3))),
        defines(n + 5, emit::binary(BinaryOp::Iadd, v(n + 1), v(n + 4))),
        defines(n + 6, emit::binary(BinaryOp::Imod, v(n + 5), k.modulus)),
        defines(n + 7, emit::binary(BinaryOp::Iadd, v(n + 0), k.one)),
    ]
    &&& g.terminator(BlockId(ADD_BODY)) == Some(Terminator::Jump(BlockId(ADD_LOOP)))
    &&& at(g, OUTER_LATCH as int) == seq![
        defines(n + 8, emit::phi(Seq::empty())),
        defines(n + 9, emit::binary(BinaryOp::Iadd, s.odd, k.two)),
    ]
    &&& g.terminator(BlockId(OUTER_LATCH)) == Some(Terminator::Jump(BlockId(OUTER)))
    &&& is_empty_at(g, EXIT)
    &&& g.terminator(BlockId(EXIT)) == Some(Terminator::Return(Some(s.answer)))
    &&& sits(g, n + 0, ADD_LOOP, 0)
    &&& sits(g, n + 1, ADD_LOOP, 1)
    &&& sits(g, n + 8, OUTER_LATCH, 0)
}

#[verifier::rlimit(60)]
proof fn lemma_adding(f: FuncView, k: Constants, s: Search, c: Copies, n: int)
    requires
        has_size(f, n),
        n < 900,
        is_empty_at(f, ADD_LOOP),
        is_empty_at(f, ADD_BODY),
        is_empty_at(f, OUTER_LATCH),
        is_empty_at(f, EXIT),
    ensures
        ({
            let (g, r) = helper::adding_built(f, k, s, c);
            &&& r == (Adding { add_index: v(n + 0), running: v(n + 1), reduced: v(n + 6), next_add_index: v(n + 7), next_answer: v(n + 8), next_odd: v(n + 9) })
            &&& has_size(g, n + 10)
            &&& adding_stands(g, k, s, c, n)
            &&& keeps(f, g, set![ADD_LOOP as int, ADD_BODY as int, OUTER_LATCH as int, EXIT as int])
        }),
{
    reveal(helper::adding_built);
    reveal(emit::emitted);
    reveal(emit::effected);
    reveal(emit::ended);
    let (g, r) = helper::adding_built(f, k, s, c);
    assert(at(g, ADD_LOOP as int) =~= seq![
        defines(n + 0, emit::phi(Seq::empty())),
        defines(n + 1, emit::phi(Seq::empty())),
        defines(n + 2, emit::comparison(CompareOp::Lt, v(n + 0), c.copy_count)),
    ]);
    assert(at(g, ADD_BODY as int) =~= seq![
        defines(n + 3, emit::binary(BinaryOp::Imul, v(n + 0), c.increment)),
        defines(n + 4, emit::binary(BinaryOp::Iadd, c.base, v(n + 3))),
        defines(n + 5, emit::binary(BinaryOp::Iadd, v(n + 1), v(n + 4))),
        defines(n + 6, emit::binary(BinaryOp::Imod, v(n + 5), k.modulus)),
        defines(n + 7, emit::binary(BinaryOp::Iadd, v(n + 0), k.one)),
    ]);
    assert(at(g, OUTER_LATCH as int) =~= seq![
        defines(n + 8, emit::phi(Seq::empty())),
        defines(n + 9, emit::binary(BinaryOp::Iadd, s.odd, k.two)),
    ]);
    assert(at(g, EXIT as int) == at(f, EXIT as int));
}


/// What the state of a chain is on arrival.
pub open spec fn states(kind: RecurrenceKind, n: int) -> Seq<(BlockId, ValueId)> {
    let three = seq![(BlockId(OUTER), v(n + 1)), (BlockId(EVEN), v(n + 9)), (BlockId(ODD_THREE), v(n + 21))];
    match kind {
        RecurrenceKind::ThreeOnly => three,
        RecurrenceKind::ThreeThenFour => three.push((BlockId(ODD_FOUR), v(n + 25))),
    }
}

/// What the number of steps is on arrival.
pub open spec fn depths(k: Constants, kind: RecurrenceKind, n: int) -> Seq<(BlockId, ValueId)> {
    let three = seq![(BlockId(OUTER), k.zero), (BlockId(EVEN), v(n + 10)), (BlockId(ODD_THREE), v(n + 22))];
    match kind {
        RecurrenceKind::ThreeOnly => three,
        RecurrenceKind::ThreeThenFour => three.push((BlockId(ODD_FOUR), v(n + 26))),
    }
}

/// The blocks of the helper. `k` holds its constants; the values of the search
/// begin with `n`, those behind it with `q`.
#[verifier::opaque]
pub open spec fn stands(g: FuncView, k: Constants, kind: RecurrenceKind, n: int, q: int) -> bool {
    &&& first_stands(g, k, kind, n, q)
    &&& odd_stands(g, k, kind, n)
    &&& second_stands(g, k, n, q)
}

/// The blocks of the search but for the odd steps.
pub open spec fn first_stands(g: FuncView, k: Constants, kind: RecurrenceKind, n: int, q: int) -> bool {
    &&& at(g, ENTRY as int) == seq![
        defines(n + 0, emit::binary(BinaryOp::Idiv, k.limit, k.two)),
    ]
    &&& g.terminator(BlockId(ENTRY)) == Some(Terminator::Jump(BlockId(OUTER)))
    &&& at(g, OUTER as int) == seq![
        defines(n + 1, emit::phi(seq![(BlockId(ENTRY), k.one), (BlockId(OUTER_LATCH), v(q + 32))])),
        defines(n + 2, emit::phi(seq![(BlockId(ENTRY), k.zero), (BlockId(OUTER_LATCH), v(q + 31))])),
        defines(n + 3, emit::comparison(CompareOp::Le, v(n + 1), k.limit)),
    ]
    &&& g.terminator(BlockId(OUTER)) == Some(emit::branch(v(n + 3), OUTCOME, EXIT))
    &&& at(g, OUTCOME as int) == seq![
        defines(n + 4, emit::phi(states(kind, n))),
        defines(n + 5, emit::phi(depths(k, kind, n))),
        defines(n + 6, emit::comparison(CompareOp::Eq, v(n + 4), k.one)),
    ]
    &&& g.terminator(BlockId(OUTCOME)) == Some(emit::branch(v(n + 6), SUCCESS, PARITY))
    &&& is_empty_at(g, SUCCESS)
    &&& g.terminator(BlockId(SUCCESS)) == Some(Terminator::Jump(BlockId(OUTCOME_DONE)))
    &&& at(g, PARITY as int) == seq![
        defines(n + 7, emit::binary(BinaryOp::Iand, v(n + 4), k.one)),
        defines(n + 8, emit::comparison(CompareOp::Eq, v(n + 7), k.zero)),
    ]
    &&& g.terminator(BlockId(PARITY)) == Some(emit::branch(v(n + 8), EVEN, CACHE_BOUND))
    &&& at(g, EVEN as int) == seq![
        defines(n + 9, emit::binary(BinaryOp::Idiv, v(n + 4), k.two)),
        defines(n + 10, emit::binary(BinaryOp::Iadd, v(n + 5), k.one)),
    ]
    &&& g.terminator(BlockId(EVEN)) == Some(Terminator::Jump(BlockId(OUTCOME)))
    &&& at(g, CACHE_BOUND as int) == seq![
        defines(n + 11, emit::comparison(CompareOp::Lt, v(n + 4), v(n + 1))),
        defines(n + 12, emit::comparison(CompareOp::Le, v(n + 4), k.cache_state_limit)),
        defines(n + 13, emit::binary(BinaryOp::And, v(n + 11), v(n + 12))),
    ]
    &&& g.terminator(BlockId(CACHE_BOUND)) == Some(emit::branch(v(n + 13), CACHE_LOOKUP, ODD_THREE))
    &&& at(g, CACHE_LOOKUP as int) == seq![
        defines(n + 14, emit::binary(BinaryOp::Idiv, v(n + 4), k.two)),
        defines(n + 15, emit::element(k.cache_ptr, k.zero, v(n + 14))),
        defines(n + 16, emit::load(v(n + 15))),
        defines(n + 17, emit::comparison(CompareOp::Lt, v(n + 16), k.zero)),
    ]
    &&& g.terminator(BlockId(CACHE_LOOKUP)) == Some(emit::branch(v(n + 17), CACHE_FAILURE, CACHE_SUCCESS))
    &&& at(g, CACHE_SUCCESS as int) == seq![
        defines(n + 18, emit::binary(BinaryOp::Isub, v(n + 16), k.one)),
        defines(n + 19, emit::binary(BinaryOp::Iadd, v(n + 5), v(n + 18))),
    ]
    &&& g.terminator(BlockId(CACHE_SUCCESS)) == Some(Terminator::Jump(BlockId(OUTCOME_DONE)))
    &&& is_empty_at(g, CACHE_FAILURE)
    &&& g.terminator(BlockId(CACHE_FAILURE)) == Some(Terminator::Jump(BlockId(OUTCOME_DONE)))
}

/// The blocks of the odd steps.
pub open spec fn odd_stands(g: FuncView, k: Constants, kind: RecurrenceKind, n: int) -> bool {
    &&& at(g, ODD_THREE as int) == seq![
        defines(n + 20, emit::binary(BinaryOp::Imul, v(n + 4), k.three)),
        defines(n + 21, emit::binary(BinaryOp::Iadd, v(n + 20), k.one)),
        defines(n + 22, emit::binary(BinaryOp::Iadd, v(n + 5), k.one)),
        defines(n + 23, emit::comparison(CompareOp::Le, v(n + 21), k.limit)),
    ]
    &&& match kind {
        RecurrenceKind::ThreeOnly => {
            &&& g.terminator(BlockId(ODD_THREE)) == Some(emit::branch(v(n + 23), OUTCOME, FAILURE))
            &&& is_empty_at(g, ODD_FOUR)
            &&& g.terminator(BlockId(ODD_FOUR)) == Some(Terminator::Jump(BlockId(FAILURE)))
        },
        RecurrenceKind::ThreeThenFour => {
            &&& g.terminator(BlockId(ODD_THREE)) == Some(emit::branch(v(n + 23), OUTCOME, ODD_FOUR))
            &&& at(g, ODD_FOUR as int) == seq![
                defines(n + 24, emit::binary(BinaryOp::Imul, v(n + 4), k.four)),
                defines(n + 25, emit::binary(BinaryOp::Iadd, v(n + 24), k.one)),
                defines(n + 26, emit::binary(BinaryOp::Iadd, v(n + 5), k.one)),
                defines(n + 27, emit::comparison(CompareOp::Le, v(n + 25), k.limit)),
            ]
            &&& g.terminator(BlockId(ODD_FOUR)) == Some(emit::branch(v(n + 27), OUTCOME, FAILURE))
        },
    }
}

/// The blocks behind the search.
pub open spec fn second_stands(g: FuncView, k: Constants, n: int, q: int) -> bool {
    &&& is_empty_at(g, FAILURE)
    &&& g.terminator(BlockId(FAILURE)) == Some(Terminator::Jump(BlockId(OUTCOME_DONE)))
    &&& at(g, OUTCOME_DONE as int) == seq![
        defines(q + 0, emit::phi(seq![(BlockId(SUCCESS), v(n + 5)), (BlockId(FAILURE), k.minus_one), (BlockId(CACHE_SUCCESS), v(n + 19)), (BlockId(CACHE_FAILURE), k.minus_one)])),
    ]
    &&& g.terminator(BlockId(OUTCOME_DONE)) == Some(Terminator::Jump(BlockId(CACHE_STORE_DECIDE)))
    &&& at(g, CACHE_STORE_DECIDE as int) == seq![
        defines(q + 1, emit::comparison(CompareOp::Le, v(n + 1), k.cache_state_limit)),
    ]
    &&& g.terminator(BlockId(CACHE_STORE_DECIDE)) == Some(emit::branch(v(q + 1), CACHE_STORE_SELECT, CACHE_STORE_DONE))
    &&& at(g, CACHE_STORE_SELECT as int) == seq![
        defines(q + 2, emit::binary(BinaryOp::Idiv, v(n + 1), k.two)),
        defines(q + 3, emit::element(k.cache_ptr, k.zero, v(q + 2))),
        defines(q + 4, emit::comparison(CompareOp::Lt, v(q + 0), k.zero)),
    ]
    &&& g.terminator(BlockId(CACHE_STORE_SELECT)) == Some(emit::branch(v(q + 4), CACHE_STORE_FAILURE, CACHE_STORE_SUCCESS))
    &&& at(g, CACHE_STORE_SUCCESS as int) == seq![
        defines(q + 5, emit::binary(BinaryOp::Iadd, v(q + 0), k.one)),
        does(emit::store(v(q + 3), v(q + 5))),
    ]
    &&& g.terminator(BlockId(CACHE_STORE_SUCCESS)) == Some(Terminator::Jump(BlockId(CACHE_STORE_DONE)))
    &&& at(g, CACHE_STORE_FAILURE as int) == seq![
        does(emit::store(v(q + 3), k.minus_one)),
    ]
    &&& g.terminator(BlockId(CACHE_STORE_FAILURE)) == Some(Terminator::Jump(BlockId(CACHE_STORE_DONE)))
    &&& is_empty_at(g, CACHE_STORE_DONE)
    &&& g.terminator(BlockId(CACHE_STORE_DONE)) == Some(Terminator::Jump(BlockId(COPIES)))
    &&& at(g, COPIES as int) == seq![
        defines(q + 6, emit::phi(seq![(BlockId(CACHE_STORE_DONE), v(n + 1)), (BlockId(COPIES_BODY), v(q + 9))])),
        defines(q + 7, emit::phi(seq![(BlockId(CACHE_STORE_DONE), k.one), (BlockId(COPIES_BODY), v(q + 10))])),
        defines(q + 8, emit::comparison(CompareOp::Le, v(q + 6), v(n + 0))),
    ]
    &&& g.terminator(BlockId(COPIES)) == Some(emit::branch(v(q + 8), COPIES_BODY, COPIES_DONE))
    &&& at(g, COPIES_BODY as int) == seq![
        defines(q + 9, emit::binary(BinaryOp::Imul, v(q + 6), k.two)),
        defines(q + 10, emit::binary(BinaryOp::Iadd, v(q + 7), k.one)),
    ]
    &&& g.terminator(BlockId(COPIES_BODY)) == Some(Terminator::Jump(BlockId(COPIES)))
    &&& at(g, COPIES_DONE as int) == seq![
        defines(q + 11, emit::comparison(CompareOp::Lt, v(q + 0), k.zero)),
    ]
    &&& g.terminator(BlockId(COPIES_DONE)) == Some(emit::branch(v(q + 11), FAILED_VALUE, SUCCESSFUL_VALUE))
    &&& is_empty_at(g, FAILED_VALUE)
    &&& g.terminator(BlockId(FAILED_VALUE)) == Some(Terminator::Jump(BlockId(VALUE_DONE)))
    &&& is_empty_at(g, SUCCESSFUL_VALUE)
    &&& g.terminator(BlockId(SUCCESSFUL_VALUE)) == Some(Terminator::Jump(BlockId(VALUE_DONE)))
    &&& at(g, VALUE_DONE as int) == seq![
        defines(q + 12, emit::phi(seq![(BlockId(FAILED_VALUE), k.failure_value), (BlockId(SUCCESSFUL_VALUE), v(q + 0))])),
        defines(q + 13, emit::phi(seq![(BlockId(FAILED_VALUE), k.zero), (BlockId(SUCCESSFUL_VALUE), k.one)])),
        defines(q + 14, emit::comparison(CompareOp::Le, v(q + 12), k.safe_base)),
    ]
    &&& g.terminator(BlockId(VALUE_DONE)) == Some(emit::branch(v(q + 14), AGGREGATE, ADD_LOOP))
    &&& at(g, AGGREGATE as int) == seq![
        defines(q + 15, emit::binary(BinaryOp::Isub, v(q + 7), k.one)),
        defines(q + 16, emit::binary(BinaryOp::Imul, v(q + 7), v(q + 15))),
        defines(q + 17, emit::binary(BinaryOp::Idiv, v(q + 16), k.two)),
        defines(q + 18, emit::binary(BinaryOp::Imul, v(q + 12), v(q + 7))),
        defines(q + 19, emit::binary(BinaryOp::Imul, v(q + 17), v(q + 13))),
        defines(q + 20, emit::binary(BinaryOp::Iadd, v(q + 18), v(q + 19))),
        defines(q + 21, emit::binary(BinaryOp::Iadd, v(n + 2), v(q + 20))),
        defines(q + 22, emit::binary(BinaryOp::Imod, v(q + 21), k.modulus)),
    ]
    &&& g.terminator(BlockId(AGGREGATE)) == Some(Terminator::Jump(BlockId(OUTER_LATCH)))
    &&& at(g, ADD_LOOP as int) == seq![
        defines(q + 23, emit::phi(seq![(BlockId(VALUE_DONE), k.zero), (BlockId(ADD_BODY), v(q + 30))])),
        defines(q + 24, emit::phi(seq![(BlockId(VALUE_DONE), v(n + 2)), (BlockId(ADD_BODY), v(q + 29))])),
        defines(q + 25, emit::comparison(CompareOp::Lt, v(q + 23), v(q + 7))),
    ]
    &&& g.terminator(BlockId(ADD_LOOP)) == Some(emit::branch(v(q + 25), ADD_BODY, OUTER_LATCH))
    &&& at(g, ADD_BODY as int) == seq![
        defines(q + 26, emit::binary(BinaryOp::Imul, v(q + 23), v(q + 13))),
        defines(q + 27, emit::binary(BinaryOp::Iadd, v(q + 12), v(q + 26))),
        defines(q + 28, emit::binary(BinaryOp::Iadd, v(q + 24), v(q + 27))),
        defines(q + 29, emit::binary(BinaryOp::Imod, v(q + 28), k.modulus)),
        defines(q + 30, emit::binary(BinaryOp::Iadd, v(q + 23), k.one)),
    ]
    &&& g.terminator(BlockId(ADD_BODY)) == Some(Terminator::Jump(BlockId(ADD_LOOP)))
    &&& at(g, OUTER_LATCH as int) == seq![
        defines(q + 31, emit::phi(seq![(BlockId(AGGREGATE), v(q + 22)), (BlockId(ADD_LOOP), v(q + 24))])),
        defines(q + 32, emit::binary(BinaryOp::Iadd, v(n + 1), k.two)),
    ]
    &&& g.terminator(BlockId(OUTER_LATCH)) == Some(Terminator::Jump(BlockId(OUTER)))
    &&& is_empty_at(g, EXIT)
    &&& g.terminator(BlockId(EXIT)) == Some(Terminator::Return(Some(v(n + 2))))
}

proof fn lemma_phi_set(f: FuncView, id: int, b: usize, i: usize, incomings: Seq<(BlockId, ValueId)>)
    requires
        0 <= id < f.values.len() < 2000,
        sits(f, id, b, i),
        b < f.blocks.len(),
        i < at(f, b as int).len(),
    ensures
        ({
            let g = emit::phi_set(f, v(id), incomings);
            &&& keeps(f, g, set![b as int])
            &&& g.values == f.values
            &&& at(g, b as int) == at(f, b as int).update(
                i as int,
                InstView { kind: emit::phi(incomings), ..at(f, b as int)[i as int] },
            )
            &&& forall|c: BlockId| #[trigger] f.has_block(c) ==> g.terminator(c) == f.terminator(c)
        }),
{
    reveal(emit::phi_set);
    assert(f.has_value(v(id)));
    assert(f.has_inst(BlockId(b), i as int));
    let g = emit::phi_set(f, v(id), incomings);
    assert(at(g, b as int) =~= at(f, b as int).update(
        i as int,
        InstView { kind: emit::phi(incomings), ..at(f, b as int)[i as int] },
    ));
}

/// What the constants are.
pub open spec fn has_constants(
    f: FuncView,
    k: Constants,
    kind: RecurrenceKind,
    modulus: i32,
    cache: Seq<char>,
    n: int,
) -> bool {
    &&& k.limit == v(0)
    &&& f.values[0].kind == ValueKindView::Param
    &&& is_const(f, k.zero, 0, n)
    &&& is_const(f, k.one, 1, n)
    &&& is_const(f, k.two, 2, n)
    &&& is_const(f, k.three, 3, n)
    &&& is_const(f, k.four, 4, n)
    &&& is_const(f, k.failure_value, recognize::failure_of(kind), n)
    &&& is_const(f, k.minus_one, -1i32, n)
    &&& is_const(f, k.modulus, modulus, n)
    &&& is_const(f, k.safe_base, helper::safe_base(modulus as int) as i32, n)
    &&& is_const(f, k.cache_state_limit, helper::CACHE_STATE_LIMIT, n)
    &&& k.cache_ptr.0 < n
    &&& f.values[k.cache_ptr.0 as int].kind == ValueKindView::Global(cache)
}

/// The value is the constant, and one of the first `n`.
pub open spec fn is_const(f: FuncView, x: ValueId, c: i32, n: int) -> bool {
    x.0 < n && f.values[x.0 as int].kind == ValueKindView::Const(Const::Int(c))
}

proof fn lemma_find(f: FuncView, c: Const, from: int)
    requires
        0 <= from,
        f.values.len() < 1000,
    ensures
        util::find_const(f, c, from) matches Some(x) ==> x.0 < f.values.len() && f.values[x.0 as int].kind
            == ValueKindView::Const(c),
    decreases f.values.len() - from,
{
    if from < f.values.len() {
        lemma_find(f, c, from + 1);
    }
}

proof fn lemma_constant(f: FuncView, c: int)
    requires
        i32::MIN <= c <= i32::MAX,
        f.values.len() < 900,
    ensures
        ({
            let (g, x) = helper::constant(f, c);
            &&& g.blocks == f.blocks
            &&& keeps(f, g, Set::empty())
            &&& g.values.len() <= f.values.len() + 1
            &&& is_const(g, x, c as i32, g.values.len() as int)
        }),
{
    reveal(helper::constant);
    lemma_find(f, Const::Int(c as i32), 0);
}

/// Blocks that are added are empty, and nothing else changes.
proof fn lemma_named(f: FuncView, names: Seq<Seq<char>>, k: int)
    requires
        0 <= k <= names.len(),
    ensures
        ({
            let g = emit::blocks_named(f, names, k);
            &&& g.blocks.len() == f.blocks.len() + names.len() - k
            &&& g.values == f.values
            &&& g.params == f.params
            &&& g.entry == f.entry
            &&& forall|c: int| 0 <= c < f.blocks.len() ==> #[trigger] g.blocks[c] == f.blocks[c]
            &&& forall|c: int|
                f.blocks.len() <= c < g.blocks.len() ==> (#[trigger] g.blocks[c]).insts
                    == Seq::<InstView>::empty()
        }),
    decreases names.len() - k,
{
    if k < names.len() {
        let h = f.add_block(names[k]);
        lemma_named(h, names, k + 1);
        let g = emit::blocks_named(f, names, k);
        assert forall|c: int| 0 <= c < f.blocks.len() implies #[trigger] g.blocks[c]
            == f.blocks[c] by {
            assert(g.blocks[c] == h.blocks[c]);
        }
        assert(g.blocks[f.blocks.len() as int] == h.blocks[f.blocks.len() as int]);
    }
}

proof fn lemma_skeleton(name: Seq<char>)
    ensures
        ({
            let s = helper::skeleton(name);
            &&& s.blocks.len() == BLOCKS
            &&& s.values.len() == 1
            &&& s.values[0].kind == ValueKindView::Param
            &&& s.params == seq![v(0)]
            &&& s.entry == BlockId(ENTRY)
            &&& forall|b: usize| b < BLOCKS ==> #[trigger] is_empty_at(s, b)
        }),
{
    let f = FuncView {
        name,
        params: seq![ValueId(0)],
        ret: Type::I32,
        entry: BlockId(0),
        blocks: seq![BlockView { name: "entry"@, insts: Seq::empty(), terminator: None }],
        values: seq![
            ValueView { name: Some("limit"@), ty: Type::I32, kind: ValueKindView::Param },
        ],
        recursive_cfg_inline_decided: false,
        reduction_jammed: false,
    };
    let names = helper::block_names();
    assert(names.len() == 29);
    lemma_named(f, names, 0);
    let s = helper::skeleton(name);
    assert(s == emit::blocks_named(f, names, 0));
    assert forall|b: usize| b < BLOCKS implies #[trigger] is_empty_at(s, b) by {
        if b == 0 {
            assert(s.blocks[0] == f.blocks[0]);
        } else {
            assert(s.blocks[b as int].insts == Seq::<InstView>::empty());
        }
    }
}

#[verifier::rlimit(60)]
proof fn lemma_constants(name: Seq<char>, modulus: i32, cache: Seq<char>, kind: RecurrenceKind) -> (n: int)
    requires
        modulus > 0,
    ensures
        ({
            let (f1, k0) = helper::small_constants(helper::skeleton(name), kind);
            let (f2, k) = helper::large_constants(f1, k0, modulus, cache);
            &&& has_size(f2, n)
            &&& n < 100
            &&& has_constants(f2, k, kind, modulus, cache, n)
            &&& f2.entry == BlockId(ENTRY)
            &&& f2.params == seq![v(0)]
            &&& forall|b: usize| b < BLOCKS ==> #[trigger] is_empty_at(f2, b)
        }),
{
    let s = helper::skeleton(name);
    lemma_skeleton(name);
    let (g1, zero) = helper::constant(s, 0);
    lemma_constant(s, 0);
    let (g2, one) = helper::constant(g1, 1);
    lemma_constant(g1, 1);
    let (g3, two) = helper::constant(g2, 2);
    lemma_constant(g2, 2);
    let (g4, three) = helper::constant(g3, 3);
    lemma_constant(g3, 3);
    let (g5, four) = helper::constant(g4, 4);
    lemma_constant(g4, 4);
    let (g6, failure) = helper::constant(g5, recognize::failure_of(kind) as int);
    lemma_constant(g5, recognize::failure_of(kind) as int);
    let (g7, minus) = helper::constant(g6, -1);
    lemma_constant(g6, -1);
    let (g8, md) = helper::constant(g7, modulus as int);
    lemma_constant(g7, modulus as int);
    let (g9, sb) = helper::constant(g8, helper::safe_base(modulus as int));
    lemma_constant(g8, helper::safe_base(modulus as int));
    let (g10, cl) = helper::constant(g9, helper::CACHE_STATE_LIMIT as int);
    lemma_constant(g9, helper::CACHE_STATE_LIMIT as int);
    let (f1, k0) = helper::small_constants(s, kind);
    let (f2, k) = helper::large_constants(f1, k0, modulus, cache);
    assert(f1 == g7);
    assert(f2.blocks == s.blocks);
    assert(g1.values[zero.0 as int] == g2.values[zero.0 as int]);
    assert(f2.values[0] == s.values[0]) by {
        assert(g1.values[0] == s.values[0] && g2.values[0] == g1.values[0] && g3.values[0] == g2.values[0]);
        assert(g4.values[0] == g3.values[0] && g5.values[0] == g4.values[0] && g6.values[0] == g5.values[0]);
        assert(g7.values[0] == g6.values[0] && g8.values[0] == g7.values[0] && g9.values[0] == g8.values[0]);
        assert(g10.values[0] == g9.values[0]);
    }

    assert(f2.values[zero.0 as int] == g1.values[zero.0 as int]) by {
        assert(g2.values[zero.0 as int] == g1.values[zero.0 as int]);
        assert(g3.values[zero.0 as int] == g2.values[zero.0 as int]);
        assert(g4.values[zero.0 as int] == g3.values[zero.0 as int]);
        assert(g5.values[zero.0 as int] == g4.values[zero.0 as int]);
        assert(g6.values[zero.0 as int] == g5.values[zero.0 as int]);
        assert(g7.values[zero.0 as int] == g6.values[zero.0 as int]);
        assert(g8.values[zero.0 as int] == g7.values[zero.0 as int]);
        assert(g9.values[zero.0 as int] == g8.values[zero.0 as int]);
        assert(g10.values[zero.0 as int] == g9.values[zero.0 as int]);
    }
    assert(f2.values[one.0 as int] == g2.values[one.0 as int]) by {
        assert(g3.values[one.0 as int] == g2.values[one.0 as int]);
        assert(g4.values[one.0 as int] == g3.values[one.0 as int]);
        assert(g5.values[one.0 as int] == g4.values[one.0 as int]);
        assert(g6.values[one.0 as int] == g5.values[one.0 as int]);
        assert(g7.values[one.0 as int] == g6.values[one.0 as int]);
        assert(g8.values[one.0 as int] == g7.values[one.0 as int]);
        assert(g9.values[one.0 as int] == g8.values[one.0 as int]);
        assert(g10.values[one.0 as int] == g9.values[one.0 as int]);
    }
    assert(f2.values[two.0 as int] == g3.values[two.0 as int]) by {
        assert(g4.values[two.0 as int] == g3.values[two.0 as int]);
        assert(g5.values[two.0 as int] == g4.values[two.0 as int]);
        assert(g6.values[two.0 as int] == g5.values[two.0 as int]);
        assert(g7.values[two.0 as int] == g6.values[two.0 as int]);
        assert(g8.values[two.0 as int] == g7.values[two.0 as int]);
        assert(g9.values[two.0 as int] == g8.values[two.0 as int]);
        assert(g10.values[two.0 as int] == g9.values[two.0 as int]);
    }
    assert(f2.values[three.0 as int] == g4.values[three.0 as int]) by {
        assert(g5.values[three.0 as int] == g4.values[three.0 as int]);
        assert(g6.values[three.0 as int] == g5.values[three.0 as int]);
        assert(g7.values[three.0 as int] == g6.values[three.0 as int]);
        assert(g8.values[three.0 as int] == g7.values[three.0 as int]);
        assert(g9.values[three.0 as int] == g8.values[three.0 as int]);
        assert(g10.values[three.0 as int] == g9.values[three.0 as int]);
    }
    assert(f2.values[four.0 as int] == g5.values[four.0 as int]) by {
        assert(g6.values[four.0 as int] == g5.values[four.0 as int]);
        assert(g7.values[four.0 as int] == g6.values[four.0 as int]);
        assert(g8.values[four.0 as int] == g7.values[four.0 as int]);
        assert(g9.values[four.0 as int] == g8.values[four.0 as int]);
        assert(g10.values[four.0 as int] == g9.values[four.0 as int]);
    }
    assert(f2.values[failure.0 as int] == g6.values[failure.0 as int]) by {
        assert(g7.values[failure.0 as int] == g6.values[failure.0 as int]);
        assert(g8.values[failure.0 as int] == g7.values[failure.0 as int]);
        assert(g9.values[failure.0 as int] == g8.values[failure.0 as int]);
        assert(g10.values[failure.0 as int] == g9.values[failure.0 as int]);
    }
    assert(f2.values[minus.0 as int] == g7.values[minus.0 as int]) by {
        assert(g8.values[minus.0 as int] == g7.values[minus.0 as int]);
        assert(g9.values[minus.0 as int] == g8.values[minus.0 as int]);
        assert(g10.values[minus.0 as int] == g9.values[minus.0 as int]);
    }
    assert(f2.values[md.0 as int] == g8.values[md.0 as int]) by {
        assert(g9.values[md.0 as int] == g8.values[md.0 as int]);
        assert(g10.values[md.0 as int] == g9.values[md.0 as int]);
    }
    assert(f2.values[sb.0 as int] == g9.values[sb.0 as int]) by {
        assert(g10.values[sb.0 as int] == g9.values[sb.0 as int]);
    }
    assert(f2.values[cl.0 as int] == g10.values[cl.0 as int]) by {
    }
    assert forall|b: usize| b < BLOCKS implies #[trigger] is_empty_at(f2, b) by {
        assert(is_empty_at(s, b));
    }
    f2.values.len() as int
}

pub open spec fn search_at(n: int) -> Search {
    Search { half: v(n + 0), odd: v(n + 1), answer: v(n + 2), state: v(n + 4), depth: v(n + 5), half_state: v(n + 9), even_depth: v(n + 10) }
}

pub open spec fn lookup_at(n: int) -> Lookup {
    Lookup { cached_outcome: v(n + 19) }
}

pub open spec fn three_at(n: int) -> Three {
    Three { next_three: v(n + 21), three_depth: v(n + 22) }
}

pub open spec fn four_at(n: int) -> Four {
    Four { next_four: v(n + 25), four_depth: v(n + 26) }
}

pub open spec fn outcome_at(q: int) -> Outcome {
    Outcome { outcome_value: v(q + 0) }
}

pub open spec fn copies_at(q: int) -> Copies {
    Copies { scaled: v(q + 6), copy_count: v(q + 7), doubled: v(q + 9), next_copy_count: v(q + 10), base: v(q + 12), increment: v(q + 13) }
}

pub open spec fn aggregate_at(q: int) -> Aggregate {
    Aggregate { group_reduced: v(q + 22) }
}

pub open spec fn adding_at(q: int) -> Adding {
    Adding { add_index: v(q + 23), running: v(q + 24), reduced: v(q + 29), next_add_index: v(q + 30), next_answer: v(q + 31), next_odd: v(q + 32) }
}

/// Where the values behind the search begin.
pub open spec fn behind(kind: RecurrenceKind, n: int) -> int {
    match kind {
        RecurrenceKind::ThreeOnly => n + 24,
        RecurrenceKind::ThreeThenFour => n + 28,
    }
}

proof fn lemma_odd_steps(f: FuncView, k: Constants, kind: RecurrenceKind, n: int)
    requires
        has_size(f, n + 20),
        0 <= n < 100,
        is_empty_at(f, ODD_THREE),
        is_empty_at(f, ODD_FOUR),
    ensures
        ({
            let (g, three, four) = helper::odd_steps_built(f, k, search_at(n), kind);
            &&& three == three_at(n)
            &&& four == match kind {
                RecurrenceKind::ThreeOnly => None,
                RecurrenceKind::ThreeThenFour => Some(four_at(n)),
            }
            &&& has_size(g, behind(kind, n))
            &&& odd_stands(g, k, kind, n)
            &&& keeps(f, g, set![ODD_THREE as int, ODD_FOUR as int])
        }),
{
    reveal(emit::ended);
    let s = search_at(n);
    match kind {
        RecurrenceKind::ThreeOnly => {
            let (f1, three) = helper::three_built(f, k, s, FAILURE);
            lemma_three(f, k, s, FAILURE, n + 20);
            assert(f1.blocks[ODD_FOUR as int] == f.blocks[ODD_FOUR as int]);
            let g = emit::ended(f1, ODD_FOUR, Terminator::Jump(BlockId(FAILURE)));
            assert(at(g, ODD_THREE as int) == at(f1, ODD_THREE as int));
        },
        RecurrenceKind::ThreeThenFour => {
            let (f1, three) = helper::three_built(f, k, s, ODD_FOUR);
            lemma_three(f, k, s, ODD_FOUR, n + 20);
            assert(f1.blocks[ODD_FOUR as int] == f.blocks[ODD_FOUR as int]);
            lemma_four(f1, k, s, n + 24);
            let (g, four) = helper::four_built(f1, k, s);
            assert(g.blocks[ODD_THREE as int] == f1.blocks[ODD_THREE as int]);
            assert forall|i: int| 0 <= i < f.values.len() implies #[trigger] g.values[i] == f.values[i] by {
                assert(f1.values[i] == f.values[i]);
            }
            assert forall|c: int|
                0 <= c < f.blocks.len() && !set![ODD_THREE as int, ODD_FOUR as int].contains(c)
                implies #[trigger] g.blocks[c] == f.blocks[c] by {
                assert(f1.blocks[c] == f.blocks[c]);
            }
        },
    }
}

/// The helper before its loops are closed.
pub open spec fn open_helper(f2: FuncView, k: Constants, kind: RecurrenceKind) -> FuncView {
    let (f3, s) = helper::search_built(f2, k);
    let (f4, l) = helper::lookup_built(f3, k, s);
    let (f5, three, four) = helper::odd_steps_built(f4, k, s, kind);
    let (f6, o) = helper::outcome_built(f5, k, s, l);
    let (f7, c) = helper::copies_built(f6, k, s, o);
    let (f8, g) = helper::aggregate_built(f7, k, s, c);
    helper::adding_built(f8, k, s, c).0
}

/// What stays in two steps stays.
proof fn lemma_keeps_on(f: FuncView, g: FuncView, h: FuncView, a: Set<int>, b: Set<int>)
    requires
        keeps(f, g, a),
        keeps(g, h, b),
    ensures
        keeps(f, h, a.union(b)),
{
    assert forall|c: int|
        0 <= c < f.blocks.len() && !a.union(b).contains(c) implies #[trigger] h.blocks[c]
        == f.blocks[c] by {
        assert(g.blocks[c] == f.blocks[c]);
    }
    assert forall|i: int| 0 <= i < f.values.len() implies #[trigger] h.values[i] == f.values[i] by {
        assert(g.values[i] == f.values[i]);
    }
}

#[verifier::rlimit(60)]
proof fn lemma_open(f2: FuncView, k: Constants, kind: RecurrenceKind, n: int)
    requires
        has_size(f2, n),
        0 <= n < 100,
        forall|b: usize| b < BLOCKS ==> #[trigger] is_empty_at(f2, b),
    ensures
        ({
            let q = behind(kind, n);
            let (f3, s) = helper::search_built(f2, k);
            let (f4, l) = helper::lookup_built(f3, k, s);
            let (f5, three, four) = helper::odd_steps_built(f4, k, s, kind);
            let (f6, o) = helper::outcome_built(f5, k, s, l);
            let (f7, c) = helper::copies_built(f6, k, s, o);
            let (f8, g) = helper::aggregate_built(f7, k, s, c);
            let (f9, a) = helper::adding_built(f8, k, s, c);
            &&& f9 == open_helper(f2, k, kind)
            &&& s == search_at(n)
            &&& l == lookup_at(n)
            &&& three == three_at(n)
            &&& four == match kind {
                RecurrenceKind::ThreeOnly => None,
                RecurrenceKind::ThreeThenFour => Some(four_at(n)),
            }
            &&& o == outcome_at(q)
            &&& c == copies_at(q)
            &&& g == aggregate_at(q)
            &&& a == adding_at(q)
            &&& has_size(f9, q + 33)
            &&& f9.entry == f2.entry
            &&& f9.params == f2.params
            &&& forall|i: int| 0 <= i < n ==> #[trigger] f9.values[i] == f2.values[i]
            &&& search_stands(f9, k, n)
            &&& lookup_stands(f9, k, s, n + 11)
            &&& odd_stands(f9, k, kind, n)
            &&& outcome_stands(f9, k, s, l, q)
            &&& copies_stands(f9, k, s, o, q + 6)
            &&& aggregate_stands(f9, k, s, c, q + 15)
            &&& adding_stands(f9, k, s, c, q + 23)
        }),
{
    let q = behind(kind, n);
    let t3 = set![ENTRY as int, OUTER as int, OUTCOME as int, SUCCESS as int, PARITY as int, EVEN as int];
    let t4 = set![CACHE_BOUND as int, CACHE_LOOKUP as int, CACHE_SUCCESS as int, CACHE_FAILURE as int];
    let t5 = set![ODD_THREE as int, ODD_FOUR as int];
    let t6 = set![FAILURE as int, OUTCOME_DONE as int, CACHE_STORE_DECIDE as int, CACHE_STORE_SELECT as int, CACHE_STORE_SUCCESS as int, CACHE_STORE_FAILURE as int, CACHE_STORE_DONE as int];
    let t7 = set![COPIES as int, COPIES_BODY as int, COPIES_DONE as int, FAILED_VALUE as int, SUCCESSFUL_VALUE as int, VALUE_DONE as int];
    let t8 = set![AGGREGATE as int];
    let t9 = set![ADD_LOOP as int, ADD_BODY as int, OUTER_LATCH as int, EXIT as int];
    assert(is_empty_at(f2, ENTRY));
    assert(is_empty_at(f2, OUTER));
    assert(is_empty_at(f2, OUTCOME));
    assert(is_empty_at(f2, SUCCESS));
    assert(is_empty_at(f2, PARITY));
    assert(is_empty_at(f2, EVEN));
    lemma_search(f2, k, n + 0);
    let (f3, s) = helper::search_built(f2, k);
    let u3 = t3;
    assert(is_empty_at(f2, CACHE_BOUND));
    assert(f3.blocks[CACHE_BOUND as int] == f2.blocks[CACHE_BOUND as int]);
    assert(is_empty_at(f2, CACHE_LOOKUP));
    assert(f3.blocks[CACHE_LOOKUP as int] == f2.blocks[CACHE_LOOKUP as int]);
    assert(is_empty_at(f2, CACHE_SUCCESS));
    assert(f3.blocks[CACHE_SUCCESS as int] == f2.blocks[CACHE_SUCCESS as int]);
    assert(is_empty_at(f2, CACHE_FAILURE));
    assert(f3.blocks[CACHE_FAILURE as int] == f2.blocks[CACHE_FAILURE as int]);
    lemma_lookup(f3, k, s, n + 11);
    let (f4, l) = helper::lookup_built(f3, k, s);
    let u4 = u3.union(t4);
    lemma_keeps_on(f2, f3, f4, u3, t4);
    assert(is_empty_at(f2, ODD_THREE));
    assert(f4.blocks[ODD_THREE as int] == f2.blocks[ODD_THREE as int]);
    assert(is_empty_at(f2, ODD_FOUR));
    assert(f4.blocks[ODD_FOUR as int] == f2.blocks[ODD_FOUR as int]);
    lemma_odd_steps(f4, k, kind, n);
    let (f5, three, four) = helper::odd_steps_built(f4, k, s, kind);
    let u5 = u4.union(t5);
    lemma_keeps_on(f2, f4, f5, u4, t5);
    assert(is_empty_at(f2, FAILURE));
    assert(f5.blocks[FAILURE as int] == f2.blocks[FAILURE as int]);
    assert(is_empty_at(f2, OUTCOME_DONE));
    assert(f5.blocks[OUTCOME_DONE as int] == f2.blocks[OUTCOME_DONE as int]);
    assert(is_empty_at(f2, CACHE_STORE_DECIDE));
    assert(f5.blocks[CACHE_STORE_DECIDE as int] == f2.blocks[CACHE_STORE_DECIDE as int]);
    assert(is_empty_at(f2, CACHE_STORE_SELECT));
    assert(f5.blocks[CACHE_STORE_SELECT as int] == f2.blocks[CACHE_STORE_SELECT as int]);
    assert(is_empty_at(f2, CACHE_STORE_SUCCESS));
    assert(f5.blocks[CACHE_STORE_SUCCESS as int] == f2.blocks[CACHE_STORE_SUCCESS as int]);
    assert(is_empty_at(f2, CACHE_STORE_FAILURE));
    assert(f5.blocks[CACHE_STORE_FAILURE as int] == f2.blocks[CACHE_STORE_FAILURE as int]);
    assert(is_empty_at(f2, CACHE_STORE_DONE));
    assert(f5.blocks[CACHE_STORE_DONE as int] == f2.blocks[CACHE_STORE_DONE as int]);
    lemma_outcome(f5, k, s, l, q + 0);
    let (f6, o) = helper::outcome_built(f5, k, s, l);
    let u6 = u5.union(t6);
    lemma_keeps_on(f2, f5, f6, u5, t6);
    assert(is_empty_at(f2, COPIES));
    assert(f6.blocks[COPIES as int] == f2.blocks[COPIES as int]);
    assert(is_empty_at(f2, COPIES_BODY));
    assert(f6.blocks[COPIES_BODY as int] == f2.blocks[COPIES_BODY as int]);
    assert(is_empty_at(f2, COPIES_DONE));
    assert(f6.blocks[COPIES_DONE as int] == f2.blocks[COPIES_DONE as int]);
    assert(is_empty_at(f2, FAILED_VALUE));
    assert(f6.blocks[FAILED_VALUE as int] == f2.blocks[FAILED_VALUE as int]);
    assert(is_empty_at(f2, SUCCESSFUL_VALUE));
    assert(f6.blocks[SUCCESSFUL_VALUE as int] == f2.blocks[SUCCESSFUL_VALUE as int]);
    assert(is_empty_at(f2, VALUE_DONE));
    assert(f6.blocks[VALUE_DONE as int] == f2.blocks[VALUE_DONE as int]);
    lemma_copies(f6, k, s, o, q + 6);
    let (f7, c) = helper::copies_built(f6, k, s, o);
    let u7 = u6.union(t7);
    lemma_keeps_on(f2, f6, f7, u6, t7);
    assert(is_empty_at(f2, AGGREGATE));
    assert(f7.blocks[AGGREGATE as int] == f2.blocks[AGGREGATE as int]);
    lemma_aggregate(f7, k, s, c, q + 15);
    let (f8, g) = helper::aggregate_built(f7, k, s, c);
    let u8 = u7.union(t8);
    lemma_keeps_on(f2, f7, f8, u7, t8);
    assert(is_empty_at(f2, ADD_LOOP));
    assert(f8.blocks[ADD_LOOP as int] == f2.blocks[ADD_LOOP as int]);
    assert(is_empty_at(f2, ADD_BODY));
    assert(f8.blocks[ADD_BODY as int] == f2.blocks[ADD_BODY as int]);
    assert(is_empty_at(f2, OUTER_LATCH));
    assert(f8.blocks[OUTER_LATCH as int] == f2.blocks[OUTER_LATCH as int]);
    assert(is_empty_at(f2, EXIT));
    assert(f8.blocks[EXIT as int] == f2.blocks[EXIT as int]);
    lemma_adding(f8, k, s, c, q + 23);
    let (f9, a) = helper::adding_built(f8, k, s, c);
    let u9 = u8.union(t9);
    lemma_keeps_on(f2, f8, f9, u8, t9);
    let w8 = t9;
    let w7 = t8.union(w8);
    lemma_keeps_on(f7, f8, f9, t8, w8);
    let w6 = t7.union(w7);
    lemma_keeps_on(f6, f7, f9, t7, w7);
    let w5 = t6.union(w6);
    lemma_keeps_on(f5, f6, f9, t6, w6);
    let w4 = t5.union(w5);
    lemma_keeps_on(f4, f5, f9, t5, w5);
    let w3 = t4.union(w4);
    lemma_keeps_on(f3, f4, f9, t4, w4);
    assert(search_stands(f9, k, n)) by {
        assert(f9.blocks[ENTRY as int] == f3.blocks[ENTRY as int]);
        assert(f9.blocks[OUTER as int] == f3.blocks[OUTER as int]);
        assert(f9.blocks[OUTCOME as int] == f3.blocks[OUTCOME as int]);
        assert(f9.blocks[SUCCESS as int] == f3.blocks[SUCCESS as int]);
        assert(f9.blocks[PARITY as int] == f3.blocks[PARITY as int]);
        assert(f9.blocks[EVEN as int] == f3.blocks[EVEN as int]);
        assert(f9.values[n + 1] == f3.values[n + 1]);
        assert(f9.values[n + 2] == f3.values[n + 2]);
        assert(f9.values[n + 4] == f3.values[n + 4]);
        assert(f9.values[n + 5] == f3.values[n + 5]);
    }
    assert(lookup_stands(f9, k, s, n + 11)) by {
        assert(f9.blocks[CACHE_BOUND as int] == f4.blocks[CACHE_BOUND as int]);
        assert(f9.blocks[CACHE_LOOKUP as int] == f4.blocks[CACHE_LOOKUP as int]);
        assert(f9.blocks[CACHE_SUCCESS as int] == f4.blocks[CACHE_SUCCESS as int]);
        assert(f9.blocks[CACHE_FAILURE as int] == f4.blocks[CACHE_FAILURE as int]);
    }
    assert(odd_stands(f9, k, kind, n)) by {
        assert(f9.blocks[ODD_THREE as int] == f5.blocks[ODD_THREE as int]);
        assert(f9.blocks[ODD_FOUR as int] == f5.blocks[ODD_FOUR as int]);
    }
    assert(outcome_stands(f9, k, s, l, q)) by {
        assert(f9.blocks[FAILURE as int] == f6.blocks[FAILURE as int]);
        assert(f9.blocks[OUTCOME_DONE as int] == f6.blocks[OUTCOME_DONE as int]);
        assert(f9.blocks[CACHE_STORE_DECIDE as int] == f6.blocks[CACHE_STORE_DECIDE as int]);
        assert(f9.blocks[CACHE_STORE_SELECT as int] == f6.blocks[CACHE_STORE_SELECT as int]);
        assert(f9.blocks[CACHE_STORE_SUCCESS as int] == f6.blocks[CACHE_STORE_SUCCESS as int]);
        assert(f9.blocks[CACHE_STORE_FAILURE as int] == f6.blocks[CACHE_STORE_FAILURE as int]);
        assert(f9.blocks[CACHE_STORE_DONE as int] == f6.blocks[CACHE_STORE_DONE as int]);
        assert(f9.values[q + 0] == f6.values[q + 0]);
    }
    assert(copies_stands(f9, k, s, o, q + 6)) by {
        assert(f9.blocks[COPIES as int] == f7.blocks[COPIES as int]);
        assert(f9.blocks[COPIES_BODY as int] == f7.blocks[COPIES_BODY as int]);
        assert(f9.blocks[COPIES_DONE as int] == f7.blocks[COPIES_DONE as int]);
        assert(f9.blocks[FAILED_VALUE as int] == f7.blocks[FAILED_VALUE as int]);
        assert(f9.blocks[SUCCESSFUL_VALUE as int] == f7.blocks[SUCCESSFUL_VALUE as int]);
        assert(f9.blocks[VALUE_DONE as int] == f7.blocks[VALUE_DONE as int]);
        assert(f9.values[q + 6] == f7.values[q + 6]);
        assert(f9.values[q + 7] == f7.values[q + 7]);
        assert(f9.values[q + 12] == f7.values[q + 12]);
        assert(f9.values[q + 13] == f7.values[q + 13]);
    }
    assert(aggregate_stands(f9, k, s, c, q + 15)) by {
        assert(f9.blocks[AGGREGATE as int] == f8.blocks[AGGREGATE as int]);
    }
}

/// The helper with its loops closed.
pub open spec fn closed_helper(h0: FuncView, k: Constants, kind: RecurrenceKind, n: int) -> FuncView {
    let q = behind(kind, n);
    let h1 = emit::phi_set(h0, v(n + 1), seq![(BlockId(ENTRY), k.one), (BlockId(OUTER_LATCH), v(q + 32))]);
    let h2 = emit::phi_set(h1, v(n + 2), seq![(BlockId(ENTRY), k.zero), (BlockId(OUTER_LATCH), v(q + 31))]);
    let h3 = emit::phi_set(h2, v(n + 4), states(kind, n));
    let h4 = emit::phi_set(h3, v(n + 5), depths(k, kind, n));
    let h5 = emit::phi_set(h4, v(q + 6), seq![(BlockId(CACHE_STORE_DONE), v(n + 1)), (BlockId(COPIES_BODY), v(q + 9))]);
    let h6 = emit::phi_set(h5, v(q + 7), seq![(BlockId(CACHE_STORE_DONE), k.one), (BlockId(COPIES_BODY), v(q + 10))]);
    let h7 = emit::phi_set(h6, v(q + 23), seq![(BlockId(VALUE_DONE), k.zero), (BlockId(ADD_BODY), v(q + 30))]);
    let h8 = emit::phi_set(h7, v(q + 24), seq![(BlockId(VALUE_DONE), v(n + 2)), (BlockId(ADD_BODY), v(q + 29))]);
    emit::phi_set(h8, v(q + 31), seq![(BlockId(AGGREGATE), v(q + 22)), (BlockId(ADD_LOOP), v(q + 24))])
}

/// Closing the loops of the helper.
#[verifier::rlimit(60)]
proof fn lemma_closed(h0: FuncView, k: Constants, kind: RecurrenceKind, n: int)
    requires
        0 <= n < 100,
        has_size(h0, behind(kind, n) + 33),
        search_stands(h0, k, n),
        lookup_stands(h0, k, search_at(n), n + 11),
        odd_stands(h0, k, kind, n),
        outcome_stands(h0, k, search_at(n), lookup_at(n), behind(kind, n)),
        copies_stands(h0, k, search_at(n), outcome_at(behind(kind, n)), behind(kind, n) + 6),
        aggregate_stands(h0, k, search_at(n), copies_at(behind(kind, n)), behind(kind, n) + 15),
        adding_stands(h0, k, search_at(n), copies_at(behind(kind, n)), behind(kind, n) + 23),
    ensures
        ({
            let g = closed_helper(h0, k, kind, n);
            &&& has_size(g, behind(kind, n) + 33)
            &&& g.values == h0.values
            &&& g.entry == h0.entry
            &&& g.params == h0.params
            &&& stands(g, k, kind, n, behind(kind, n))
        }),
{
    let q = behind(kind, n);
    let h1 = emit::phi_set(h0, v(n + 1), seq![(BlockId(ENTRY), k.one), (BlockId(OUTER_LATCH), v(q + 32))]);
    lemma_phi_set(h0, n + 1, OUTER, 0, seq![(BlockId(ENTRY), k.one), (BlockId(OUTER_LATCH), v(q + 32))]);
    let h2 = emit::phi_set(h1, v(n + 2), seq![(BlockId(ENTRY), k.zero), (BlockId(OUTER_LATCH), v(q + 31))]);
    assert(h1.blocks[OUTER as int].insts.len() == h0.blocks[OUTER as int].insts.len());
    lemma_phi_set(h1, n + 2, OUTER, 1, seq![(BlockId(ENTRY), k.zero), (BlockId(OUTER_LATCH), v(q + 31))]);
    let h3 = emit::phi_set(h2, v(n + 4), states(kind, n));
    assert(h1.blocks[OUTCOME as int].insts.len() == h0.blocks[OUTCOME as int].insts.len());
    assert(h2.blocks[OUTCOME as int].insts.len() == h1.blocks[OUTCOME as int].insts.len());
    lemma_phi_set(h2, n + 4, OUTCOME, 0, states(kind, n));
    let h4 = emit::phi_set(h3, v(n + 5), depths(k, kind, n));
    assert(h1.blocks[OUTCOME as int].insts.len() == h0.blocks[OUTCOME as int].insts.len());
    assert(h2.blocks[OUTCOME as int].insts.len() == h1.blocks[OUTCOME as int].insts.len());
    assert(h3.blocks[OUTCOME as int].insts.len() == h2.blocks[OUTCOME as int].insts.len());
    lemma_phi_set(h3, n + 5, OUTCOME, 1, depths(k, kind, n));
    let h5 = emit::phi_set(h4, v(q + 6), seq![(BlockId(CACHE_STORE_DONE), v(n + 1)), (BlockId(COPIES_BODY), v(q + 9))]);
    assert(h1.blocks[COPIES as int].insts.len() == h0.blocks[COPIES as int].insts.len());
    assert(h2.blocks[COPIES as int].insts.len() == h1.blocks[COPIES as int].insts.len());
    assert(h3.blocks[COPIES as int].insts.len() == h2.blocks[COPIES as int].insts.len());
    assert(h4.blocks[COPIES as int].insts.len() == h3.blocks[COPIES as int].insts.len());
    lemma_phi_set(h4, q + 6, COPIES, 0, seq![(BlockId(CACHE_STORE_DONE), v(n + 1)), (BlockId(COPIES_BODY), v(q + 9))]);
    let h6 = emit::phi_set(h5, v(q + 7), seq![(BlockId(CACHE_STORE_DONE), k.one), (BlockId(COPIES_BODY), v(q + 10))]);
    assert(h1.blocks[COPIES as int].insts.len() == h0.blocks[COPIES as int].insts.len());
    assert(h2.blocks[COPIES as int].insts.len() == h1.blocks[COPIES as int].insts.len());
    assert(h3.blocks[COPIES as int].insts.len() == h2.blocks[COPIES as int].insts.len());
    assert(h4.blocks[COPIES as int].insts.len() == h3.blocks[COPIES as int].insts.len());
    assert(h5.blocks[COPIES as int].insts.len() == h4.blocks[COPIES as int].insts.len());
    lemma_phi_set(h5, q + 7, COPIES, 1, seq![(BlockId(CACHE_STORE_DONE), k.one), (BlockId(COPIES_BODY), v(q + 10))]);
    let h7 = emit::phi_set(h6, v(q + 23), seq![(BlockId(VALUE_DONE), k.zero), (BlockId(ADD_BODY), v(q + 30))]);
    assert(h1.blocks[ADD_LOOP as int].insts.len() == h0.blocks[ADD_LOOP as int].insts.len());
    assert(h2.blocks[ADD_LOOP as int].insts.len() == h1.blocks[ADD_LOOP as int].insts.len());
    assert(h3.blocks[ADD_LOOP as int].insts.len() == h2.blocks[ADD_LOOP as int].insts.len());
    assert(h4.blocks[ADD_LOOP as int].insts.len() == h3.blocks[ADD_LOOP as int].insts.len());
    assert(h5.blocks[ADD_LOOP as int].insts.len() == h4.blocks[ADD_LOOP as int].insts.len());
    assert(h6.blocks[ADD_LOOP as int].insts.len() == h5.blocks[ADD_LOOP as int].insts.len());
    lemma_phi_set(h6, q + 23, ADD_LOOP, 0, seq![(BlockId(VALUE_DONE), k.zero), (BlockId(ADD_BODY), v(q + 30))]);
    let h8 = emit::phi_set(h7, v(q + 24), seq![(BlockId(VALUE_DONE), v(n + 2)), (BlockId(ADD_BODY), v(q + 29))]);
    assert(h1.blocks[ADD_LOOP as int].insts.len() == h0.blocks[ADD_LOOP as int].insts.len());
    assert(h2.blocks[ADD_LOOP as int].insts.len() == h1.blocks[ADD_LOOP as int].insts.len());
    assert(h3.blocks[ADD_LOOP as int].insts.len() == h2.blocks[ADD_LOOP as int].insts.len());
    assert(h4.blocks[ADD_LOOP as int].insts.len() == h3.blocks[ADD_LOOP as int].insts.len());
    assert(h5.blocks[ADD_LOOP as int].insts.len() == h4.blocks[ADD_LOOP as int].insts.len());
    assert(h6.blocks[ADD_LOOP as int].insts.len() == h5.blocks[ADD_LOOP as int].insts.len());
    assert(h7.blocks[ADD_LOOP as int].insts.len() == h6.blocks[ADD_LOOP as int].insts.len());
    lemma_phi_set(h7, q + 24, ADD_LOOP, 1, seq![(BlockId(VALUE_DONE), v(n + 2)), (BlockId(ADD_BODY), v(q + 29))]);
    let h9 = emit::phi_set(h8, v(q + 31), seq![(BlockId(AGGREGATE), v(q + 22)), (BlockId(ADD_LOOP), v(q + 24))]);
    assert(h1.blocks[OUTER_LATCH as int].insts.len() == h0.blocks[OUTER_LATCH as int].insts.len());
    assert(h2.blocks[OUTER_LATCH as int].insts.len() == h1.blocks[OUTER_LATCH as int].insts.len());
    assert(h3.blocks[OUTER_LATCH as int].insts.len() == h2.blocks[OUTER_LATCH as int].insts.len());
    assert(h4.blocks[OUTER_LATCH as int].insts.len() == h3.blocks[OUTER_LATCH as int].insts.len());
    assert(h5.blocks[OUTER_LATCH as int].insts.len() == h4.blocks[OUTER_LATCH as int].insts.len());
    assert(h6.blocks[OUTER_LATCH as int].insts.len() == h5.blocks[OUTER_LATCH as int].insts.len());
    assert(h7.blocks[OUTER_LATCH as int].insts.len() == h6.blocks[OUTER_LATCH as int].insts.len());
    assert(h8.blocks[OUTER_LATCH as int].insts.len() == h7.blocks[OUTER_LATCH as int].insts.len());
    lemma_phi_set(h8, q + 31, OUTER_LATCH, 0, seq![(BlockId(AGGREGATE), v(q + 22)), (BlockId(ADD_LOOP), v(q + 24))]);
    let y1 = set![OUTER as int];
    let y2 = y1.union(set![OUTER as int]);
    lemma_keeps_on(h0, h1, h2, y1, set![OUTER as int]);
    let y3 = y2.union(set![OUTCOME as int]);
    lemma_keeps_on(h0, h2, h3, y2, set![OUTCOME as int]);
    let y4 = y3.union(set![OUTCOME as int]);
    lemma_keeps_on(h0, h3, h4, y3, set![OUTCOME as int]);
    let y5 = y4.union(set![COPIES as int]);
    lemma_keeps_on(h0, h4, h5, y4, set![COPIES as int]);
    let y6 = y5.union(set![COPIES as int]);
    lemma_keeps_on(h0, h5, h6, y5, set![COPIES as int]);
    let y7 = y6.union(set![ADD_LOOP as int]);
    lemma_keeps_on(h0, h6, h7, y6, set![ADD_LOOP as int]);
    let y8 = y7.union(set![ADD_LOOP as int]);
    lemma_keeps_on(h0, h7, h8, y7, set![ADD_LOOP as int]);
    let y9 = y8.union(set![OUTER_LATCH as int]);
    lemma_keeps_on(h0, h8, h9, y8, set![OUTER_LATCH as int]);
    let g = closed_helper(h0, k, kind, n);
    assert(g == h9);
    assert forall|c: int| 0 <= c < BLOCKS implies #[trigger] g.blocks[c].terminator == h0.blocks[c].terminator by {
        let b = BlockId(c as usize);
        assert(h0.has_block(b) && h1.has_block(b) && h2.has_block(b) && h3.has_block(b));
        assert(h4.has_block(b) && h5.has_block(b) && h6.has_block(b) && h7.has_block(b));
        assert(h8.has_block(b));
        assert(h1.terminator(b) == h0.terminator(b) && h2.terminator(b) == h1.terminator(b));
        assert(h3.terminator(b) == h2.terminator(b) && h4.terminator(b) == h3.terminator(b));
        assert(h5.terminator(b) == h4.terminator(b) && h6.terminator(b) == h5.terminator(b));
        assert(h7.terminator(b) == h6.terminator(b) && h8.terminator(b) == h7.terminator(b));
        assert(h9.terminator(b) == h8.terminator(b));
    }
    // What stands in the blocks.
    assert(g.blocks[ENTRY as int].terminator == h0.blocks[ENTRY as int].terminator);
    assert(h9.blocks[ENTRY as int] == h0.blocks[ENTRY as int]);
    assert(g.blocks[OUTER as int].terminator == h0.blocks[OUTER as int].terminator);
    assert(h3.blocks[OUTER as int] == h2.blocks[OUTER as int]);
    assert(h4.blocks[OUTER as int] == h3.blocks[OUTER as int]);
    assert(h5.blocks[OUTER as int] == h4.blocks[OUTER as int]);
    assert(h6.blocks[OUTER as int] == h5.blocks[OUTER as int]);
    assert(h7.blocks[OUTER as int] == h6.blocks[OUTER as int]);
    assert(h8.blocks[OUTER as int] == h7.blocks[OUTER as int]);
    assert(h9.blocks[OUTER as int] == h8.blocks[OUTER as int]);
    assert(at(g, OUTER as int) =~= seq![
        defines(n + 1, emit::phi(seq![(BlockId(ENTRY), k.one), (BlockId(OUTER_LATCH), v(q + 32))])),
        defines(n + 2, emit::phi(seq![(BlockId(ENTRY), k.zero), (BlockId(OUTER_LATCH), v(q + 31))])),
        defines(n + 3, emit::comparison(CompareOp::Le, v(n + 1), k.limit)),
    ]);
    assert(g.blocks[OUTCOME as int].terminator == h0.blocks[OUTCOME as int].terminator);
    assert(h1.blocks[OUTCOME as int] == h0.blocks[OUTCOME as int]);
    assert(h2.blocks[OUTCOME as int] == h1.blocks[OUTCOME as int]);
    assert(h5.blocks[OUTCOME as int] == h4.blocks[OUTCOME as int]);
    assert(h6.blocks[OUTCOME as int] == h5.blocks[OUTCOME as int]);
    assert(h7.blocks[OUTCOME as int] == h6.blocks[OUTCOME as int]);
    assert(h8.blocks[OUTCOME as int] == h7.blocks[OUTCOME as int]);
    assert(h9.blocks[OUTCOME as int] == h8.blocks[OUTCOME as int]);
    assert(at(g, OUTCOME as int) =~= seq![
        defines(n + 4, emit::phi(states(kind, n))),
        defines(n + 5, emit::phi(depths(k, kind, n))),
        defines(n + 6, emit::comparison(CompareOp::Eq, v(n + 4), k.one)),
    ]);
    assert(g.blocks[SUCCESS as int].terminator == h0.blocks[SUCCESS as int].terminator);
    assert(h9.blocks[SUCCESS as int] == h0.blocks[SUCCESS as int]);
    assert(g.blocks[PARITY as int].terminator == h0.blocks[PARITY as int].terminator);
    assert(h9.blocks[PARITY as int] == h0.blocks[PARITY as int]);
    assert(g.blocks[EVEN as int].terminator == h0.blocks[EVEN as int].terminator);
    assert(h9.blocks[EVEN as int] == h0.blocks[EVEN as int]);
    assert(g.blocks[CACHE_BOUND as int].terminator == h0.blocks[CACHE_BOUND as int].terminator);
    assert(h9.blocks[CACHE_BOUND as int] == h0.blocks[CACHE_BOUND as int]);
    assert(g.blocks[CACHE_LOOKUP as int].terminator == h0.blocks[CACHE_LOOKUP as int].terminator);
    assert(h9.blocks[CACHE_LOOKUP as int] == h0.blocks[CACHE_LOOKUP as int]);
    assert(g.blocks[CACHE_SUCCESS as int].terminator == h0.blocks[CACHE_SUCCESS as int].terminator);
    assert(h9.blocks[CACHE_SUCCESS as int] == h0.blocks[CACHE_SUCCESS as int]);
    assert(g.blocks[CACHE_FAILURE as int].terminator == h0.blocks[CACHE_FAILURE as int].terminator);
    assert(h9.blocks[CACHE_FAILURE as int] == h0.blocks[CACHE_FAILURE as int]);
    assert(g.blocks[ODD_THREE as int].terminator == h0.blocks[ODD_THREE as int].terminator);
    assert(h9.blocks[ODD_THREE as int] == h0.blocks[ODD_THREE as int]);
    assert(g.blocks[ODD_FOUR as int].terminator == h0.blocks[ODD_FOUR as int].terminator);
    assert(h9.blocks[ODD_FOUR as int] == h0.blocks[ODD_FOUR as int]);
    assert(g.blocks[FAILURE as int].terminator == h0.blocks[FAILURE as int].terminator);
    assert(h9.blocks[FAILURE as int] == h0.blocks[FAILURE as int]);
    assert(g.blocks[OUTCOME_DONE as int].terminator == h0.blocks[OUTCOME_DONE as int].terminator);
    assert(h9.blocks[OUTCOME_DONE as int] == h0.blocks[OUTCOME_DONE as int]);
    assert(g.blocks[CACHE_STORE_DECIDE as int].terminator == h0.blocks[CACHE_STORE_DECIDE as int].terminator);
    assert(h9.blocks[CACHE_STORE_DECIDE as int] == h0.blocks[CACHE_STORE_DECIDE as int]);
    assert(g.blocks[CACHE_STORE_SELECT as int].terminator == h0.blocks[CACHE_STORE_SELECT as int].terminator);
    assert(h9.blocks[CACHE_STORE_SELECT as int] == h0.blocks[CACHE_STORE_SELECT as int]);
    assert(g.blocks[CACHE_STORE_SUCCESS as int].terminator == h0.blocks[CACHE_STORE_SUCCESS as int].terminator);
    assert(h9.blocks[CACHE_STORE_SUCCESS as int] == h0.blocks[CACHE_STORE_SUCCESS as int]);
    assert(g.blocks[CACHE_STORE_FAILURE as int].terminator == h0.blocks[CACHE_STORE_FAILURE as int].terminator);
    assert(h9.blocks[CACHE_STORE_FAILURE as int] == h0.blocks[CACHE_STORE_FAILURE as int]);
    assert(g.blocks[CACHE_STORE_DONE as int].terminator == h0.blocks[CACHE_STORE_DONE as int].terminator);
    assert(h9.blocks[CACHE_STORE_DONE as int] == h0.blocks[CACHE_STORE_DONE as int]);
    assert(g.blocks[COPIES as int].terminator == h0.blocks[COPIES as int].terminator);
    assert(h1.blocks[COPIES as int] == h0.blocks[COPIES as int]);
    assert(h2.blocks[COPIES as int] == h1.blocks[COPIES as int]);
    assert(h3.blocks[COPIES as int] == h2.blocks[COPIES as int]);
    assert(h4.blocks[COPIES as int] == h3.blocks[COPIES as int]);
    assert(h7.blocks[COPIES as int] == h6.blocks[COPIES as int]);
    assert(h8.blocks[COPIES as int] == h7.blocks[COPIES as int]);
    assert(h9.blocks[COPIES as int] == h8.blocks[COPIES as int]);
    assert(at(g, COPIES as int) =~= seq![
        defines(q + 6, emit::phi(seq![(BlockId(CACHE_STORE_DONE), v(n + 1)), (BlockId(COPIES_BODY), v(q + 9))])),
        defines(q + 7, emit::phi(seq![(BlockId(CACHE_STORE_DONE), k.one), (BlockId(COPIES_BODY), v(q + 10))])),
        defines(q + 8, emit::comparison(CompareOp::Le, v(q + 6), v(n + 0))),
    ]);
    assert(g.blocks[COPIES_BODY as int].terminator == h0.blocks[COPIES_BODY as int].terminator);
    assert(h9.blocks[COPIES_BODY as int] == h0.blocks[COPIES_BODY as int]);
    assert(g.blocks[COPIES_DONE as int].terminator == h0.blocks[COPIES_DONE as int].terminator);
    assert(h9.blocks[COPIES_DONE as int] == h0.blocks[COPIES_DONE as int]);
    assert(g.blocks[FAILED_VALUE as int].terminator == h0.blocks[FAILED_VALUE as int].terminator);
    assert(h9.blocks[FAILED_VALUE as int] == h0.blocks[FAILED_VALUE as int]);
    assert(g.blocks[SUCCESSFUL_VALUE as int].terminator == h0.blocks[SUCCESSFUL_VALUE as int].terminator);
    assert(h9.blocks[SUCCESSFUL_VALUE as int] == h0.blocks[SUCCESSFUL_VALUE as int]);
    assert(g.blocks[VALUE_DONE as int].terminator == h0.blocks[VALUE_DONE as int].terminator);
    assert(h9.blocks[VALUE_DONE as int] == h0.blocks[VALUE_DONE as int]);
    assert(g.blocks[AGGREGATE as int].terminator == h0.blocks[AGGREGATE as int].terminator);
    assert(h9.blocks[AGGREGATE as int] == h0.blocks[AGGREGATE as int]);
    assert(g.blocks[ADD_LOOP as int].terminator == h0.blocks[ADD_LOOP as int].terminator);
    assert(h1.blocks[ADD_LOOP as int] == h0.blocks[ADD_LOOP as int]);
    assert(h2.blocks[ADD_LOOP as int] == h1.blocks[ADD_LOOP as int]);
    assert(h3.blocks[ADD_LOOP as int] == h2.blocks[ADD_LOOP as int]);
    assert(h4.blocks[ADD_LOOP as int] == h3.blocks[ADD_LOOP as int]);
    assert(h5.blocks[ADD_LOOP as int] == h4.blocks[ADD_LOOP as int]);
    assert(h6.blocks[ADD_LOOP as int] == h5.blocks[ADD_LOOP as int]);
    assert(h9.blocks[ADD_LOOP as int] == h8.blocks[ADD_LOOP as int]);
    assert(at(g, ADD_LOOP as int) =~= seq![
        defines(q + 23, emit::phi(seq![(BlockId(VALUE_DONE), k.zero), (BlockId(ADD_BODY), v(q + 30))])),
        defines(q + 24, emit::phi(seq![(BlockId(VALUE_DONE), v(n + 2)), (BlockId(ADD_BODY), v(q + 29))])),
        defines(q + 25, emit::comparison(CompareOp::Lt, v(q + 23), v(q + 7))),
    ]);
    assert(g.blocks[ADD_BODY as int].terminator == h0.blocks[ADD_BODY as int].terminator);
    assert(h9.blocks[ADD_BODY as int] == h0.blocks[ADD_BODY as int]);
    assert(g.blocks[OUTER_LATCH as int].terminator == h0.blocks[OUTER_LATCH as int].terminator);
    assert(h1.blocks[OUTER_LATCH as int] == h0.blocks[OUTER_LATCH as int]);
    assert(h2.blocks[OUTER_LATCH as int] == h1.blocks[OUTER_LATCH as int]);
    assert(h3.blocks[OUTER_LATCH as int] == h2.blocks[OUTER_LATCH as int]);
    assert(h4.blocks[OUTER_LATCH as int] == h3.blocks[OUTER_LATCH as int]);
    assert(h5.blocks[OUTER_LATCH as int] == h4.blocks[OUTER_LATCH as int]);
    assert(h6.blocks[OUTER_LATCH as int] == h5.blocks[OUTER_LATCH as int]);
    assert(h7.blocks[OUTER_LATCH as int] == h6.blocks[OUTER_LATCH as int]);
    assert(h8.blocks[OUTER_LATCH as int] == h7.blocks[OUTER_LATCH as int]);
    assert(at(g, OUTER_LATCH as int) =~= seq![
        defines(q + 31, emit::phi(seq![(BlockId(AGGREGATE), v(q + 22)), (BlockId(ADD_LOOP), v(q + 24))])),
        defines(q + 32, emit::binary(BinaryOp::Iadd, v(n + 1), k.two)),
    ]);
    assert(g.blocks[EXIT as int].terminator == h0.blocks[EXIT as int].terminator);
    assert(h9.blocks[EXIT as int] == h0.blocks[EXIT as int]);
    reveal(stands);
    assert(first_stands(g, k, kind, n, q));
    assert(odd_stands(g, k, kind, n));
    assert(second_stands(g, k, n, q));
}

/// The helper, block by block.
#[verifier::rlimit(40)]
pub proof fn lemma_helper(name: Seq<char>, modulus: i32, cache: Seq<char>, kind: RecurrenceKind) -> (r: (Constants, int))
    requires
        modulus > 0,
    ensures
        ({
            let g = helper::grouped_helper(name, modulus, cache, kind);
            let (k, n) = r;
            &&& 0 <= n < 100
            &&& has_size(g, behind(kind, n) + 33)
            &&& has_constants(g, k, kind, modulus, cache, n)
            &&& g.entry == BlockId(ENTRY)
            &&& g.params == seq![v(0)]
            &&& stands(g, k, kind, n, behind(kind, n))
        }),
{
    let (f1, k0) = helper::small_constants(helper::skeleton(name), kind);
    let (f2, k) = helper::large_constants(f1, k0, modulus, cache);
    let n = lemma_constants(name, modulus, cache, kind);
    let q = behind(kind, n);
    lemma_open(f2, k, kind, n);
    let h0 = open_helper(f2, k, kind);
    lemma_closed(h0, k, kind, n);
    let g = helper::grouped_helper(name, modulus, cache, kind);
    assert(g == closed_helper(h0, k, kind, n));
    assert forall|i: int| 0 <= i < n implies #[trigger] g.values[i] == f2.values[i] by {
        assert(h0.values[i] == f2.values[i]);
    }
    (k, n)
}

} // verus!
