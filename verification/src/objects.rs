//! The objects that addresses lie in.
use vstd::prelude::*;

use crate::cfg;
use crate::edit;
use crate::ir::{
    BlockId, FuncView, Function, InstKind, KindView, ValueId, ValueKind, ValueKindView,
};
use crate::query;
use crate::query::defining_inst_kind;

verus! {

/// The addresses that an address is computed from.
pub open spec fn sources_of(f: FuncView, v: ValueId) -> Seq<BlockId> {
    match query::definition(f, v) {
        Some(KindView::Gep { base, .. }) => seq![BlockId(base.0)],
        Some(KindView::Phi { incomings }) => Seq::new(
            incomings.len(),
            |k: int| BlockId(incomings[k].1.0),
        ),
        _ => Seq::empty(),
    }
}

/// The graph of the addresses; its nodes have the numbers of the values.
pub open spec fn source_graph(f: FuncView) -> Seq<Seq<BlockId>> {
    Seq::new(f.values.len(), |v: int| sources_of(f, ValueId(v as usize)))
}

/// The address `w` goes into the address `v`.
pub open spec fn comes_from(f: FuncView, v: ValueId, w: ValueId) -> bool {
    cfg::reaches(source_graph(f), BlockId(v.0), BlockId(w.0), None)
}

/// The value is the address of an object: a global or a local array.
pub open spec fn is_object(f: FuncView, v: ValueId) -> bool {
    f.value(v).kind is Global || (query::definition(f, v) matches Some(kind) && kind is Alloca)
}

/// Both values are the address of one object.
pub open spec fn is_same_object(f: FuncView, a: ValueId, b: ValueId) -> bool {
    match (f.value(a).kind, f.value(b).kind) {
        (ValueKindView::Global(x), ValueKindView::Global(y)) => x == y,
        (ValueKindView::Global(_), _) => false,
        (_, ValueKindView::Global(_)) => false,
        _ => a == b,
    }
}

// ---------------------------------------------------------------------------
// Executable functions
// ---------------------------------------------------------------------------

/// The numbers of the values that an address is computed from.
fn source_list(func: &Function, v: ValueId) -> (r: Vec<BlockId>)
    requires
        func@.wf(),
    ensures
        r@ == sources_of(func@, v),
        forall|k: int| 0 <= k < r.len() ==> (#[trigger] r@[k]).0 < func@.values.len(),
{
    proof {
        query::lemma_definition_wf(func@, v);
    }
    let mut list: Vec<BlockId> = Vec::new();
    match defining_inst_kind(func, v) {
        Some(InstKind::Gep { base, .. }) => {
            list.push(BlockId(base.0));
            assert(list@ =~= sources_of(func@, v));
        },
        Some(InstKind::Phi { incomings }) => {
            let n = incomings.len();
            for k in 0..n
                invariant
                    n == incomings.len(),
                    edit::incomings_wf(incomings@, func@.blocks.len(), func@.values.len()),
                    list.len() == k,
                    forall|j: int|
                        0 <= j < k ==> #[trigger] list@[j] == BlockId(incomings@[j].1.0),
                    forall|j: int| 0 <= j < k ==> (#[trigger] list@[j]).0 < func@.values.len(),
            {
                assert(incomings@[k as int].1.0 < func@.values.len());
                list.push(BlockId(incomings[k].1.0));
            }
            assert(list@ =~= sources_of(func@, v));
        },
        _ => {
            assert(list@ =~= Seq::empty());
        },
    }
    list
}

pub fn build_source_graph(func: &Function) -> (r: Vec<Vec<BlockId>>)
    requires
        func@.wf(),
    ensures
        cfg::lists_view(r@) == source_graph(func@),
        cfg::graph_wf(source_graph(func@)),
{
    let ghost f = func@;
    let mut graph: Vec<Vec<BlockId>> = Vec::new();
    let n = func.values.len();
    assert(n == f.values.len());
    for v in 0..n
        invariant
            func@ == f,
            f.wf(),
            n == f.values.len(),
            graph.len() == v,
            forall|j: int|
                0 <= j < v ==> (#[trigger] graph@[j])@ == sources_of(f, ValueId(j as usize)),
            forall|j: int, k: int|
                0 <= j < v && 0 <= k < graph@[j]@.len() ==> (#[trigger] graph@[j]@[k]).0
                    < f.values.len(),
    {
        let list = source_list(func, ValueId(v));
        graph.push(list);
    }
    assert(cfg::lists_view(graph@) =~= source_graph(f));
    assert forall|a: int, k: int|
        0 <= a < source_graph(f).len() && 0 <= k < source_graph(f)[a].len() implies (
    #[trigger] source_graph(f)[a][k]).0 < source_graph(f).len() by {
        assert(cfg::lists_view(graph@)[a] == graph@[a]@);
        assert(graph@[a]@[k].0 < f.values.len());
    }
    graph
}

pub fn object(func: &Function, v: ValueId) -> (r: bool)
    requires
        func@.has_value(v),
    ensures
        r == is_object(func@, v),
{
    assert(func.values@[v.0 as int]@ == func@.value(v));
    if let ValueKind::Global(_) = func.values[v.0].kind {
        return true;
    }
    match defining_inst_kind(func, v) {
        Some(InstKind::Alloca { .. }) => true,
        _ => false,
    }
}

pub fn same_object(func: &Function, a: ValueId, b: ValueId) -> (r: bool)
    requires
        func@.has_value(a),
        func@.has_value(b),
    ensures
        r == is_same_object(func@, a, b),
{
    assert(func.values@[a.0 as int]@ == func@.value(a));
    assert(func.values@[b.0 as int]@ == func@.value(b));
    match (&func.values[a.0].kind, &func.values[b.0].kind) {
        (ValueKind::Global(x), ValueKind::Global(y)) => *x == *y,
        (ValueKind::Global(_), _) => false,
        (_, ValueKind::Global(_)) => false,
        _ => a == b,
    }
}

} // verus!
