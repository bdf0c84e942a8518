//! Which values are computed from which.
use vstd::prelude::*;

use crate::cfg;
use crate::edit;
use crate::edit::inst_operands;
use crate::ir::{BlockId, FuncView, Function, InstKind, ValueId};
use crate::query;
use crate::verify;

verus! {

/// Operand `k` of the instruction at position `i` of the listed block `b` goes
/// into `v`; with `phis`, only phis count.
pub open spec fn goes_into(
    f: FuncView,
    list: Seq<BlockId>,
    phis: bool,
    v: ValueId,
    b: BlockId,
    i: int,
    k: int,
) -> bool {
    &&& list.contains(b)
    &&& f.has_inst(b, i)
    &&& f.inst(b, i).result == Some(v)
    &&& phis ==> f.inst(b, i).kind is Phi
    &&& 0 <= k < edit::operands(f.inst(b, i).kind).len()
}

/// `v` is derived from `start` in at most `n` steps.
pub open spec fn derived_in(
    f: FuncView,
    list: Seq<BlockId>,
    phis: bool,
    start: ValueId,
    v: ValueId,
    n: nat,
) -> bool
    decreases n,
{
    v == start || (n > 0 && exists|b: BlockId, i: int, k: int| #[trigger]
        goes_into(f, list, phis, v, b, i, k) && derived_in(
            f,
            list,
            phis,
            start,
            edit::operands(f.inst(b, i).kind)[k],
            (n - 1) as nat,
        ))
}

/// `v` is `start`, or an instruction of a listed block computes it from a
/// value that is derived from `start`; with `phis`, only phis count.
pub open spec fn derived(
    f: FuncView,
    list: Seq<BlockId>,
    phis: bool,
    start: ValueId,
    v: ValueId,
) -> bool {
    exists|n: nat| #[trigger] derived_in(f, list, phis, start, v, n)
}

/// What the instruction computes is marked if an operand is.
pub open spec fn closed_at(f: FuncView, phis: bool, marks: Seq<bool>, b: BlockId, i: int) -> bool {
    match f.inst(b, i).result {
        Some(r) => (!phis || f.inst(b, i).kind is Phi) && some_marked(
            marks,
            edit::operands(f.inst(b, i).kind),
        ) ==> marks[r.0 as int],
        None => true,
    }
}

pub open spec fn some_marked(marks: Seq<bool>, list: Seq<ValueId>) -> bool {
    exists|k: int| 0 <= k < list.len() && marks[(#[trigger] list[k]).0 as int]
}

proof fn lemma_closed(
    f: FuncView,
    list: Seq<BlockId>,
    phis: bool,
    start: ValueId,
    marks: Seq<bool>,
    v: ValueId,
    n: nat,
)
    requires
        f.wf(),
        marks.len() == f.values.len(),
        f.has_value(start),
        marks[start.0 as int],
        forall|b: BlockId, i: int|
            list.contains(b) && f.has_inst(b, i) ==> #[trigger] closed_at(f, phis, marks, b, i),
        derived_in(f, list, phis, start, v, n),
    ensures
        f.has_value(v),
        marks[v.0 as int],
    decreases n,
{
    if v != start {
        let (b, i, k) = choose|b: BlockId, i: int, k: int| #[trigger]
            goes_into(f, list, phis, v, b, i, k) && derived_in(
                f,
                list,
                phis,
                start,
                edit::operands(f.inst(b, i).kind)[k],
                (n - 1) as nat,
            );
        let reads = edit::operands(f.inst(b, i).kind);
        lemma_closed(f, list, phis, start, marks, reads[k], (n - 1) as nat);
        query::lemma_inst_wf(f, b, i);
        assert(closed_at(f, phis, marks, b, i));
        assert(some_marked(marks, reads));
    }
}

proof fn lemma_derive(
    f: FuncView,
    list: Seq<BlockId>,
    phis: bool,
    start: ValueId,
    v: ValueId,
    b: BlockId,
    i: int,
    k: int,
)
    requires
        list.contains(b),
        f.has_inst(b, i),
        f.inst(b, i).result == Some(v),
        phis ==> f.inst(b, i).kind is Phi,
        0 <= k < edit::operands(f.inst(b, i).kind).len(),
        derived(f, list, phis, start, edit::operands(f.inst(b, i).kind)[k]),
    ensures
        derived(f, list, phis, start, v),
{
    let u = edit::operands(f.inst(b, i).kind)[k];
    let n = choose|n: nat| #[trigger] derived_in(f, list, phis, start, u, n);
    assert(goes_into(f, list, phis, v, b, i, k));
    assert(derived_in(f, list, phis, start, v, n + 1));
}

fn first_marked(marks: &Vec<bool>, list: &Vec<ValueId>) -> (r: Option<usize>)
    requires
        edit::reads_wf(list@, marks.len() as nat),
    ensures
        match r {
            Some(k) => k < list.len() && marks@[list@[k as int].0 as int],
            None => !some_marked(marks@, list@),
        },
{
    let n = list.len();
    for k in 0..n
        invariant
            n == list.len(),
            edit::reads_wf(list@, marks.len() as nat),
            forall|j: int| 0 <= j < k ==> !marks@[(#[trigger] list@[j]).0 as int],
    {
        assert(list@[k as int].0 < marks.len());
        if marks[list[k].0] {
            return Some(k);
        }
    }
    None
}

/// One pass over the instructions of the listed blocks.
#[verifier::loop_isolation(false)]
fn spread(
    func: &Function,
    list: &Vec<BlockId>,
    phis: bool,
    marks: &mut Vec<bool>,
    Ghost(start): Ghost<ValueId>,
) -> (changed: bool)
    requires
        func@.wf(),
        old(marks).len() == func@.values.len(),
        forall|k: int| 0 <= k < list.len() ==> func@.has_block(#[trigger] list@[k]),
        forall|v: ValueId|
            func@.has_value(v) && #[trigger] old(marks)@[v.0 as int] ==> derived(
                func@,
                list@,
                phis,
                start,
                v,
            ),
    ensures
        final(marks).len() == func@.values.len(),
        forall|v: ValueId|
            func@.has_value(v) && #[trigger] final(marks)@[v.0 as int] ==> derived(
                func@,
                list@,
                phis,
                start,
                v,
            ),
        forall|v: int| 0 <= v < old(marks).len() && old(marks)@[v] ==> #[trigger] final(marks)@[v],
        changed ==> cfg::unmarked(final(marks)@) < cfg::unmarked(old(marks)@),
        !changed ==> final(marks)@ == old(marks)@ && forall|b: BlockId, i: int|
            list@.contains(b) && func@.has_inst(b, i) ==> #[trigger] closed_at(
                func@,
                phis,
                final(marks)@,
                b,
                i,
            ),
{
    let ghost f = func@;
    let ghost marks0 = marks@;
    let n = list.len();
    let mut changed = false;
    for x in 0..n
        invariant
            marks.len() == f.values.len(),
            forall|v: ValueId|
                f.has_value(v) && #[trigger] marks@[v.0 as int] ==> derived(
                    f,
                    list@,
                    phis,
                    start,
                    v,
                ),
            forall|v: int| 0 <= v < marks0.len() && marks0[v] ==> #[trigger] marks@[v],
            changed ==> cfg::unmarked(marks@) < cfg::unmarked(marks0),
            !changed ==> marks@ == marks0 && forall|j: int, i: int|
                0 <= j < x && f.has_inst(list@[j], i) ==> #[trigger] closed_at(
                    f,
                    phis,
                    marks0,
                    list@[j],
                    i,
                ),
    {
        let b = list[x];
        assert(f.has_block(list@[x as int]));
        let m = func.blocks[b.0].insts.len();
        for i in 0..m
            invariant
                m == f.block(b).insts.len(),
                marks.len() == f.values.len(),
                forall|v: ValueId|
                    f.has_value(v) && #[trigger] marks@[v.0 as int] ==> derived(
                        f,
                        list@,
                        phis,
                        start,
                        v,
                    ),
                forall|v: int| 0 <= v < marks0.len() && marks0[v] ==> #[trigger] marks@[v],
                changed ==> cfg::unmarked(marks@) < cfg::unmarked(marks0),
                !changed ==> marks@ == marks0 && forall|j: int, i: int|
                    0 <= j < x && f.has_inst(list@[j], i) ==> #[trigger] closed_at(
                        f,
                        phis,
                        marks0,
                        list@[j],
                        i,
                    ),
                !changed ==> forall|j: int|
                    0 <= j < i ==> #[trigger] closed_at(f, phis, marks0, b, j),
        {
            let inst = &func.blocks[b.0].insts[i];
            assert(inst@ == f.inst(b, i as int));
            proof {
                query::lemma_inst_wf(f, b, i as int);
                verify::lemma_kind_wf_operands(inst@.kind, f.blocks.len(), f.values.len());
            }
            let is_phi = match inst.kind {
                InstKind::Phi { .. } => true,
                _ => false,
            };
            if let Some(r) = inst.result {
                if (!phis || is_phi) && !marks[r.0] {
                    let reads = inst_operands(&inst.kind);
                    if let Some(k) = first_marked(marks, &reads) {
                        proof {
                            let u = reads@[k as int];
                            assert(marks@[u.0 as int]);
                            assert(list@.contains(b));
                            lemma_derive(f, list@, phis, start, r, b, i as int, k as int);
                            cfg::lemma_mark(marks@, r.0 as int);
                        }
                        let ghost before = marks@;
                        marks[r.0] = true;
                        changed = true;
                        assert(marks@ =~= before.update(r.0 as int, true));
                        assert forall|v: ValueId| f.has_value(v)
                            && #[trigger] marks@[v.0 as int] implies derived(
                            f,
                            list@,
                            phis,
                            start,
                            v,
                        ) by {
                            if v.0 != r.0 {
                                assert(before[v.0 as int]);
                            } else {
                                assert(v == r);
                            }
                        }
                    }
                }
            }
        }
    }
    proof {
        if !changed {
            assert forall|b: BlockId, i: int| list@.contains(b) && f.has_inst(b, i) implies
            #[trigger] closed_at(f, phis, marks@, b, i) by {
                let j = choose|j: int| 0 <= j < list@.len() && list@[j] == b;
                assert(closed_at(f, phis, marks0, list@[j], i));
            }
        }
    }
    changed
}

/// Marks the values that are derived from `start`.
pub fn derived_values(func: &Function, list: &Vec<BlockId>, phis: bool, start: ValueId) -> (r: Vec<
    bool,
>)
    requires
        func@.wf(),
        func@.has_value(start),
        forall|k: int| 0 <= k < list.len() ==> func@.has_block(#[trigger] list@[k]),
    ensures
        r.len() == func@.values.len(),
        forall|v: ValueId|
            func@.has_value(v) ==> (#[trigger] r@[v.0 as int] <==> derived(
                func@,
                list@,
                phis,
                start,
                v,
            )),
{
    let ghost f = func@;
    let n = func.values.len();
    let mut marks: Vec<bool> = Vec::new();
    for v in 0..n
        invariant
            marks.len() == v,
            forall|j: int| 0 <= j < v ==> #[trigger] marks@[j] == (j == start.0),
    {
        marks.push(v == start.0);
    }
    assert forall|v: ValueId| f.has_value(v) && #[trigger] marks@[v.0 as int] implies derived(
        f,
        list@,
        phis,
        start,
        v,
    ) by {
        assert(v == start);
        assert(derived_in(f, list@, phis, start, v, 0));
    }
    let mut changed = true;
    while changed
        invariant
            f == func@,
            f.wf(),
            f.has_value(start),
            marks.len() == f.values.len(),
            marks@[start.0 as int],
            forall|k: int| 0 <= k < list.len() ==> f.has_block(#[trigger] list@[k]),
            forall|v: ValueId|
                f.has_value(v) && #[trigger] marks@[v.0 as int] ==> derived(
                    f,
                    list@,
                    phis,
                    start,
                    v,
                ),
            !changed ==> forall|b: BlockId, i: int|
                list@.contains(b) && f.has_inst(b, i) ==> #[trigger] closed_at(
                    f,
                    phis,
                    marks@,
                    b,
                    i,
                ),
        decreases
                cfg::unmarked(marks@) + (if changed {
                    1nat
                } else {
                    0nat
                }),
    {
        changed = spread(func, list, phis, &mut marks, Ghost(start));
    }
    assert forall|v: ValueId| f.has_value(v) implies (#[trigger] marks@[v.0 as int] <==> derived(
        f,
        list@,
        phis,
        start,
        v,
    )) by {
        if derived(f, list@, phis, start, v) {
            let n = choose|n: nat| #[trigger] derived_in(f, list@, phis, start, v, n);
            lemma_closed(f, list@, phis, start, marks@, v, n);
        }
    }
    marks
}

/// For each value whether it is derived from `start`.
pub open spec fn derived_marks(f: FuncView, list: Seq<BlockId>, phis: bool, start: ValueId) -> Seq<
    bool,
> {
    Seq::new(f.values.len(), |v: int| derived(f, list, phis, start, ValueId(v as usize)))
}

/// Tells for each value whether it is derived from `start`.
pub fn mark_derived(func: &Function, list: &Vec<BlockId>, phis: bool, start: ValueId) -> (r: Vec<
    bool,
>)
    requires
        func@.wf(),
        func@.has_value(start),
        forall|k: int| 0 <= k < list.len() ==> func@.has_block(#[trigger] list@[k]),
    ensures
        r@ == derived_marks(func@, list@, phis, start),
        r.len() == func@.values.len(),
{
    let r = derived_values(func, list, phis, start);
    proof {
        assert(func.values.len() == func@.values.len());
        assert forall|v: int| 0 <= v < r.len() implies r@[v] == derived_marks(
            func@,
            list@,
            phis,
            start,
        )[v] by {
            assert(func@.has_value(ValueId(v as usize)));
        }
        assert(r@ =~= derived_marks(func@, list@, phis, start));
    }
    r
}

/// The value is marked.
pub open spec fn marked(marks: Seq<bool>, v: ValueId) -> bool {
    v.0 < marks.len() && marks[v.0 as int]
}

/// Whether the value is marked.
pub fn is_marked(marks: &Vec<bool>, v: ValueId) -> (r: bool)
    ensures
        r == marked(marks@, v),
{
    v.0 < marks.len() && marks[v.0]
}

/// Whether one of the values is marked.
pub fn any_marked(marks: &Vec<bool>, list: &Vec<ValueId>) -> (r: bool)
    requires
        edit::reads_wf(list@, marks.len() as nat),
    ensures
        r == some_marked(marks@, list@),
{
    let n = list.len();
    for k in 0..n
        invariant
            n == list.len(),
            edit::reads_wf(list@, marks.len() as nat),
            forall|j: int| 0 <= j < k ==> !marks@[(#[trigger] list@[j]).0 as int],
    {
        let v = list[k];
        assert(list@[k as int].0 < marks.len());
        if marks[v.0] {
            assert(marks@[list@[k as int].0 as int]);
            return true;
        }
    }
    false
}

/// The result of the instruction, if it has one, is marked.
pub open spec fn result_marked(marks: Seq<bool>, result: Option<ValueId>) -> bool {
    match result {
        Some(v) => marks[v.0 as int],
        None => true,
    }
}

/// Some instruction of the blocks defines `v`.
pub open spec fn defined_by(f: FuncView, list: Seq<BlockId>, v: ValueId) -> bool {
    exists|b: BlockId, i: int|
        list.contains(b) && f.has_inst(b, i) && (#[trigger] f.inst(b, i)).result == Some(v)
}

/// For each value whether an instruction of the blocks defines it.
pub open spec fn defined_marks(f: FuncView, list: Seq<BlockId>) -> Seq<bool> {
    Seq::new(f.values.len(), |v: int| defined_by(f, list, ValueId(v as usize)))
}

/// Tells for each value whether an instruction of the blocks defines it.
#[verifier::loop_isolation(false)]
pub fn mark_defined(func: &Function, list: &Vec<BlockId>) -> (r: Vec<bool>)
    requires
        func@.wf(),
        forall|k: int| 0 <= k < list.len() ==> func@.has_block(#[trigger] list@[k]),
    ensures
        r@ == defined_marks(func@, list@),
        r.len() == func@.values.len(),
{
    let ghost f = func@;
    let nv = func.values.len();
    assert(nv == f.values.len());
    let mut marks: Vec<bool> = Vec::new();
    for v in 0..nv
        invariant
            marks.len() == v,
            forall|j: int| 0 <= j < v ==> !(#[trigger] marks@[j]),
    {
        marks.push(false);
    }
    let n = list.len();
    for x in 0..n
        invariant
            marks.len() == nv,
            forall|v: int|
                0 <= v < nv && #[trigger] marks@[v] ==> defined_by(f, list@, ValueId(v as usize)),
            forall|j: int, i: int|
                0 <= j < x && f.has_inst(list@[j], i) ==> result_marked(marks@, (#[trigger] f.inst(list@[j], i)).result),
    {
        let b = list[x];
        assert(f.has_block(list@[x as int]));
        assert(list@.contains(b));
        let m = func.blocks[b.0].insts.len();
        for i in 0..m
            invariant
                m == f.block(b).insts.len(),
                marks.len() == nv,
                forall|v: int|
                    0 <= v < nv && #[trigger] marks@[v] ==> defined_by(
                        f,
                        list@,
                        ValueId(v as usize),
                    ),
                forall|j: int, i: int|
                    0 <= j < x && f.has_inst(list@[j], i) ==> result_marked(marks@, (#[trigger] f.inst(list@[j], i)).result),
                forall|j: int|
                    0 <= j < i ==> result_marked(marks@, (#[trigger] f.inst(b, j)).result),
        {
            let inst = &func.blocks[b.0].insts[i];
            assert(inst@ == f.inst(b, i as int));
            proof {
                query::lemma_inst_wf(f, b, i as int);
            }
            if let Some(v) = inst.result {
                let ghost before = marks@;
                marks.set(v.0, true);
                assert(defined_by(f, list@, v));
                assert forall|w: int| 0 <= w < nv && #[trigger] marks@[w] implies defined_by(
                    f,
                    list@,
                    ValueId(w as usize),
                ) by {
                    if w == v.0 {
                        assert(ValueId(w as usize) == v);
                    } else {
                        assert(before[w]);
                    }
                }
            }
        }
    }
    assert forall|v: int| 0 <= v < nv implies marks@[v] == defined_marks(f, list@)[v] by {
        let id = ValueId(v as usize);
        if defined_by(f, list@, id) {
            let (b, i) = choose|b: BlockId, i: int|
                list@.contains(b) && f.has_inst(b, i) && (#[trigger] f.inst(b, i)).result == Some(
                    id,
                );
            let j = choose|j: int| 0 <= j < list@.len() && list@[j] == b;
            assert(f.inst(list@[j], i).result == Some(id));
        }
    }
    assert(marks@ =~= defined_marks(f, list@));
    marks
}

/// Some instruction of the blocks reads `v`.
pub open spec fn read_by(f: FuncView, list: Seq<BlockId>, v: ValueId) -> bool {
    exists|b: BlockId, i: int|
        list.contains(b) && f.has_inst(b, i) && edit::operands(
            (#[trigger] f.inst(b, i)).kind,
        ).contains(v)
}

/// For each value whether an instruction of the blocks reads it.
pub open spec fn read_marks(f: FuncView, list: Seq<BlockId>) -> Seq<bool> {
    Seq::new(f.values.len(), |v: int| read_by(f, list, ValueId(v as usize)))
}

/// Marks the values of a list.
fn mark_list(marks: &mut Vec<bool>, list: &Vec<ValueId>)
    requires
        edit::reads_wf(list@, old(marks).len() as nat),
    ensures
        final(marks).len() == old(marks).len(),
        forall|v: int|
            0 <= v < old(marks).len() ==> (#[trigger] final(marks)@[v] <==> old(marks)@[v]
                || list@.contains(ValueId(v as usize))),
{
    let n = list.len();
    let ghost before = marks@;
    for k in 0..n
        invariant
            n == list.len(),
            marks.len() == before.len(),
            edit::reads_wf(list@, before.len()),
            forall|v: int|
                0 <= v < before.len() && #[trigger] marks@[v] ==> before[v] || list@.contains(
                    ValueId(v as usize),
                ),
            forall|v: int| 0 <= v < before.len() && before[v] ==> #[trigger] marks@[v],
            forall|j: int| 0 <= j < k ==> marks@[(#[trigger] list@[j]).0 as int],
    {
        let v = list[k];
        assert(list@[k as int].0 < before.len());
        let ghost prev = marks@;
        marks.set(v.0, true);
        assert forall|w: int| 0 <= w < before.len() && #[trigger] marks@[w] implies before[w]
            || list@.contains(ValueId(w as usize)) by {
            if w == v.0 {
                assert(list@[k as int] == ValueId(w as usize));
            } else {
                assert(prev[w]);
            }
        }
    }
    assert forall|v: int| 0 <= v < before.len() implies (#[trigger] marks@[v] <==> before[v]
        || list@.contains(ValueId(v as usize))) by {
        if list@.contains(ValueId(v as usize)) {
            let j = choose|j: int| 0 <= j < list@.len() && list@[j] == ValueId(v as usize);
            assert(marks@[list@[j].0 as int]);
        }
    }
}

/// Tells for each value whether an instruction of the blocks reads it.
#[verifier::loop_isolation(false)]
pub fn mark_read(func: &Function, list: &Vec<BlockId>) -> (r: Vec<bool>)
    requires
        func@.wf(),
        forall|k: int| 0 <= k < list.len() ==> func@.has_block(#[trigger] list@[k]),
    ensures
        r@ == read_marks(func@, list@),
        r.len() == func@.values.len(),
{
    let ghost f = func@;
    let nv = func.values.len();
    assert(nv == f.values.len());
    let mut marks: Vec<bool> = Vec::new();
    for v in 0..nv
        invariant
            marks.len() == v,
            forall|j: int| 0 <= j < v ==> !(#[trigger] marks@[j]),
    {
        marks.push(false);
    }
    let n = list.len();
    for x in 0..n
        invariant
            marks.len() == nv,
            forall|v: int|
                0 <= v < nv && #[trigger] marks@[v] ==> read_by(f, list@, ValueId(v as usize)),
            forall|j: int, i: int, v: int|
                0 <= j < x && f.has_inst(list@[j], i) && 0 <= v < nv && edit::operands(
                    (#[trigger] f.inst(list@[j], i)).kind,
                ).contains(ValueId(v as usize)) ==> #[trigger] marks@[v],
    {
        let b = list[x];
        assert(f.has_block(list@[x as int]));
        assert(list@.contains(b));
        let m = func.blocks[b.0].insts.len();
        for i in 0..m
            invariant
                m == f.block(b).insts.len(),
                marks.len() == nv,
                forall|v: int|
                    0 <= v < nv && #[trigger] marks@[v] ==> read_by(f, list@, ValueId(v as usize)),
                forall|j: int, i: int, v: int|
                    0 <= j < x && f.has_inst(list@[j], i) && 0 <= v < nv && edit::operands(
                        (#[trigger] f.inst(list@[j], i)).kind,
                    ).contains(ValueId(v as usize)) ==> #[trigger] marks@[v],
                forall|j: int, v: int|
                    0 <= j < i && 0 <= v < nv && edit::operands(
                        (#[trigger] f.inst(b, j)).kind,
                    ).contains(ValueId(v as usize)) ==> #[trigger] marks@[v],
        {
            let inst = &func.blocks[b.0].insts[i];
            assert(inst@ == f.inst(b, i as int));
            proof {
                query::lemma_inst_wf(f, b, i as int);
                verify::lemma_kind_wf_operands(inst@.kind, f.blocks.len(), f.values.len());
            }
            let operands = inst_operands(&inst.kind);
            let ghost before = marks@;
            mark_list(&mut marks, &operands);
            assert forall|v: int| 0 <= v < nv && #[trigger] marks@[v] implies read_by(
                f,
                list@,
                ValueId(v as usize),
            ) by {
                if !before[v] {
                    assert(edit::operands(f.inst(b, i as int).kind).contains(ValueId(v as usize)));
                }
            }
        }
    }
    assert forall|v: int| 0 <= v < nv implies marks@[v] == read_marks(f, list@)[v] by {
        let id = ValueId(v as usize);
        if read_by(f, list@, id) {
            let (b, i) = choose|b: BlockId, i: int|
                list@.contains(b) && f.has_inst(b, i) && edit::operands(
                    (#[trigger] f.inst(b, i)).kind,
                ).contains(id);
            let j = choose|j: int| 0 <= j < list@.len() && list@[j] == b;
            assert(edit::operands(f.inst(list@[j], i).kind).contains(id));
        }
    }
    assert(marks@ =~= read_marks(f, list@));
    marks
}

} // verus!
