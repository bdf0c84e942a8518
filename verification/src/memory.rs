//! Where pointers point.
use vstd::prelude::*;

use crate::ir::{
    BlockId, FuncView, Function, InstKind, KindView, Type, ValueId, ValueKind, ValueKindView,
};
use crate::patterns;
use crate::util;
use crate::util::defining_inst;
use crate::verify::contains_block;

verus! {

/// A pointer as the indices taken from a root, outermost first.
pub struct PointerPath {
    pub root: ValueId,
    pub indices: Vec<ValueId>,
}

pub struct PathView {
    pub root: ValueId,
    pub indices: Seq<ValueId>,
}

impl View for PointerPath {
    type V = PathView;

    open spec fn view(&self) -> PathView {
        PathView { root: self.root, indices: self.indices@ }
    }
}

pub open spec fn path_view(path: Option<PointerPath>) -> Option<PathView> {
    match path {
        Some(p) => Some(p@),
        None => None,
    }
}

/// The path of a pointer, looking through fewer than `depth` address
/// computations.
pub open spec fn path_in(f: FuncView, v: ValueId, depth: nat) -> Option<PathView>
    decreases depth,
{
    if depth == 0 {
        None
    } else {
        match util::def_kind(f, v) {
            Some(KindView::Gep { base, indices }) => match path_in(f, base, (depth - 1) as nat) {
                Some(p) => Some(PathView { root: p.root, indices: p.indices + indices }),
                None => None,
            },
            _ => if f.has_value(v) && f.value(v).ty is Ptr {
                Some(PathView { root: v, indices: Seq::empty() })
            } else {
                None
            },
        }
    }
}

/// The path of a pointer.
pub fn pointer_path(func: &Function, v: ValueId, depth: usize) -> (r: Option<PointerPath>)
    ensures
        path_view(r) == path_in(func@, v, depth as nat),
    decreases depth,
{
    if depth == 0 {
        return None;
    }
    match defining_inst(func, v) {
        Some(InstKind::Gep { base, indices }) => {
            let mut p = pointer_path(func, *base, depth - 1)?;
            let ghost before = p@;
            let n = indices.len();
            for k in 0..n
                invariant
                    n == indices.len(),
                    p.root == before.root,
                    p.indices@ == before.indices + indices@.take(k as int),
            {
                p.indices.push(indices[k]);
                assert(p.indices@ =~= before.indices + indices@.take(k + 1));
            }
            assert(indices@.take(n as int) =~= indices@);
            Some(p)
        },
        _ => {
            if v.0 >= func.values.len() {
                return None;
            }
            assert(func.values@[v.0 as int]@ == func@.value(v));
            match func.values[v.0].ty {
                Type::Ptr(_) => {
                    let p = PointerPath { root: v, indices: Vec::new() };
                    assert(p@.indices =~= Seq::<ValueId>::empty());
                    Some(p)
                },
                _ => None,
            }
        },
    }
}

/// The root of a pointer.
pub open spec fn root_in(f: FuncView, v: ValueId, depth: nat) -> Option<ValueId> {
    match path_in(f, v, depth) {
        Some(p) => Some(p.root),
        None => None,
    }
}

pub fn pointer_root(func: &Function, v: ValueId, depth: usize) -> (r: Option<ValueId>)
    ensures
        r == root_in(func@, v, depth as nat),
{
    match pointer_path(func, v, depth) {
        Some(p) => Some(p.root),
        None => None,
    }
}

/// The name of the global that the value refers to.
pub open spec fn global_of(f: FuncView, v: ValueId) -> Option<Seq<char>> {
    if f.has_value(v) {
        match f.value(v).kind {
            ValueKindView::Global(name) => Some(name),
            _ => None,
        }
    } else {
        None
    }
}

/// The two roots are the same object.
pub open spec fn same_root(f: FuncView, a: ValueId, b: ValueId) -> bool {
    a == b || (global_of(f, a) is Some && global_of(f, a) == global_of(f, b))
}

pub fn same_memory_root(func: &Function, a: ValueId, b: ValueId) -> (r: bool)
    ensures
        r == same_root(func@, a, b),
{
    if a == b {
        return true;
    }
    if a.0 >= func.values.len() || b.0 >= func.values.len() {
        return false;
    }
    assert(func.values@[a.0 as int]@ == func@.value(a));
    assert(func.values@[b.0 as int]@ == func@.value(b));
    match (&func.values[a.0].kind, &func.values[b.0].kind) {
        (ValueKind::Global(x), ValueKind::Global(y)) => *x == *y,
        _ => false,
    }
}

/// The root is a global, or a local object that is made outside the blocks.
pub open spec fn is_stable(f: FuncView, root: ValueId, blocks: Seq<BlockId>) -> bool {
    global_of(f, root) is Some || (!patterns::defined_in(f, root, blocks)
        && util::def_kind(f, root) is Some && util::def_kind(f, root)->0 is Alloca)
}

pub fn stable_memory_root(func: &Function, root: ValueId, blocks: &Vec<BlockId>) -> (r: bool)
    ensures
        r == is_stable(func@, root, blocks@),
{
    if root.0 >= func.values.len() {
        return false;
    }
    assert(func.values@[root.0 as int]@ == func@.value(root));
    match &func.values[root.0].kind {
        ValueKind::Global(_) => true,
        ValueKind::Inst(b, _) => {
            if contains_block(blocks, *b) {
                return false;
            }
            match defining_inst(func, root) {
                Some(InstKind::Alloca { .. }) => true,
                _ => false,
            }
        },
        _ => false,
    }
}

} // verus!
