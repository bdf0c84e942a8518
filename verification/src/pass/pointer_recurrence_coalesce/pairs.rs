//! The choice of pointers to coalesce.
use vstd::arithmetic::div_mod;
use vstd::prelude::*;

use crate::cfg::{ControlFlowGraph, Dominators};
use crate::ir::{
    BlockId, FuncView, Function, InstKind, KindView, Type, ValueId, ValueKind, ValueKindView,
};
use crate::loops;
use crate::loops::{LoopInfo, LoopView, NaturalLoop};
use crate::pass::pointer_recurrence_coalesce::address;
use crate::pass::pointer_recurrence_coalesce::address::{
    analyze_initial_address, collect_induction_congruence_ranges, Address, AddressView,
};
use crate::pass::pointer_recurrence_coalesce::plan;
use crate::pass::pointer_recurrence_coalesce::plan::{
    collect_recurrences, collect_uses, Recurrence, UseSite,
};
use crate::pass::pointer_recurrence_coalesce::types;
use crate::pass::pointer_recurrence_coalesce::types::{
    checked_type_size, spend, types_equal_bounded, Budget,
};
use crate::pass::reduction_jam::budget;
use crate::pass::reduction_jam::budget::count_insts;
use crate::query;
use crate::verify::contains_block;

verus! {

pub const MAX_FUNCTION_BLOCKS: usize = 1024;

pub const MAX_FUNCTION_VALUES: usize = 8192;

pub const MAX_FUNCTION_INSTRUCTIONS: usize = 32768;

/// The secondary pointer is the primary one moved by so many elements.
#[derive(Clone, Copy, PartialEq, Eq, Structural)]
pub struct Plan {
    pub primary: ValueId,
    pub secondary: ValueId,
    pub header: BlockId,
    pub distance: i32,
}

// ---------------------------------------------------------------------------
// Uses that can be moved
// ---------------------------------------------------------------------------

/// The instruction loads or stores what the pointer points to.
pub open spec fn is_typed_access(f: FuncView, b: BlockId, i: int, ptr: ValueId) -> bool {
    match f.value(ptr).ty {
        Type::Ptr(pointee) => f.has_inst(b, i) && match f.inst(b, i).kind {
            KindView::Load { ptr: actual } => actual == ptr && match f.inst(b, i).result {
                Some(r) => f.value(r).ty == *pointee,
                None => false,
            },
            KindView::Store { ptr: actual, value } => actual == ptr && f.value(value).ty
                == *pointee,
            _ => false,
        },
        _ => false,
    }
}

fn typed_memory_use(func: &Function, b: BlockId, i: usize, ptr: ValueId) -> (r: bool)
    requires
        func@.wf(),
        func@.has_value(ptr),
    ensures
        r == is_typed_access(func@, b, i as int, ptr),
{
    assert(func.values@[ptr.0 as int]@ == func@.value(ptr));
    match &func.values[ptr.0].ty {
        Type::Ptr(pointee) => {
            if b.0 >= func.blocks.len() || i >= func.blocks[b.0].insts.len() {
                return false;
            }
            let inst = &func.blocks[b.0].insts[i];
            assert(inst@ == func@.inst(b, i as int));
            proof {
                query::lemma_inst_wf(func@, b, i as int);
            }
            match &inst.kind {
                InstKind::Load { ptr: actual } => {
                    if *actual != ptr {
                        return false;
                    }
                    match inst.result {
                        Some(r) => {
                            assert(func.values@[r.0 as int]@ == func@.value(r));
                            func.values[r.0].ty.same(&**pointee)
                        },
                        None => false,
                    }
                },
                InstKind::Store { ptr: actual, value } => {
                    if *actual != ptr {
                        return false;
                    }
                    assert(func.values@[value.0 as int]@ == func@.value(*value));
                    func.values[value.0].ty.same(&**pointee)
                },
                _ => false,
            }
        },
        _ => false,
    }
}

/// The use accesses memory within the loop.
pub open spec fn is_access(f: FuncView, l: LoopView, r: Recurrence, site: UseSite) -> bool {
    match site {
        UseSite::LoadPtr { block, index } => l.blocks.contains(block) && is_typed_access(
            f,
            block,
            index as int,
            r.phi,
        ),
        UseSite::StorePtr { block, index } => l.blocks.contains(block) && is_typed_access(
            f,
            block,
            index as int,
            r.phi,
        ),
        _ => false,
    }
}

/// Whether the uses of the pointer, from place `k` on, are its update, once, and
/// accesses within the loop, at least once; `updates` and `accesses` were found
/// before.
pub open spec fn phi_uses_fold(
    f: FuncView,
    l: LoopView,
    r: Recurrence,
    sites: Seq<UseSite>,
    updates: nat,
    accesses: nat,
    b: Budget,
    k: int,
) -> Option<(bool, Budget)>
    decreases sites.len() - k,
{
    if k < 0 || k >= sites.len() {
        Some((updates == 1 && accesses > 0, b))
    } else {
        match types::worked(b, 1) {
            None => None,
            Some(b1) => if sites[k] == (UseSite::GepBase { result: Some(r.update) }) {
                phi_uses_fold(f, l, r, sites, updates + 1, accesses, b1, k + 1)
            } else if is_access(f, l, r, sites[k]) {
                phi_uses_fold(f, l, r, sites, updates, accesses + 1, b1, k + 1)
            } else {
                Some((false, b1))
            },
        }
    }
}

/// The update is used only by the phi.
pub open spec fn update_uses_fold(r: Recurrence, sites: Seq<UseSite>) -> bool {
    sites.len() == 1 && sites[0] == (UseSite::PhiIncoming { phi: Some(r.phi), pred: r.latch })
}

/// Whether all uses of the pointer can be moved to another.
pub open spec fn uses_fold(f: FuncView, l: LoopView, r: Recurrence, b: Budget) -> Option<
    (bool, Budget),
> {
    match phi_uses_fold(f, l, r, plan::uses_of(f, r.phi), 0, 0, b, 0) {
        None => None,
        Some((fold, b1)) => Some((fold && update_uses_fold(r, plan::uses_of(f, r.update)), b1)),
    }
}

fn check_access(func: &Function, l: &NaturalLoop, r: Recurrence, site: UseSite) -> (fold: bool)
    requires
        func@.wf(),
        func@.has_value(r.phi),
    ensures
        fold == is_access(func@, l@, r, site),
{
    match site {
        UseSite::LoadPtr { block, index } => contains_block(&l.blocks, block) && typed_memory_use(
            func,
            block,
            index,
            r.phi,
        ),
        UseSite::StorePtr { block, index } => contains_block(&l.blocks, block)
            && typed_memory_use(func, block, index, r.phi),
        _ => false,
    }
}

fn check_phi_uses(
    func: &Function,
    l: &NaturalLoop,
    r: Recurrence,
    sites: &Vec<UseSite>,
    b: Budget,
) -> (fold: Option<(bool, Budget)>)
    requires
        func@.wf(),
        func@.has_value(r.phi),
    ensures
        fold == phi_uses_fold(func@, l@, r, sites@, 0, 0, b, 0),
{
    let mut updates: usize = 0;
    let mut accesses: usize = 0;
    let mut budget = b;
    let n = sites.len();
    for k in 0..n
        invariant
            func@.wf(),
            func@.has_value(r.phi),
            n == sites.len(),
            updates <= k,
            accesses <= k,
            phi_uses_fold(func@, l@, r, sites@, 0, 0, b, 0) == phi_uses_fold(
                func@,
                l@,
                r,
                sites@,
                updates as nat,
                accesses as nat,
                budget,
                k as int,
            ),
    {
        budget = spend(budget, 1)?;
        let is_update = match sites[k] {
            UseSite::GepBase { result } => match result {
                Some(v) => v == r.update,
                None => false,
            },
            _ => false,
        };
        if is_update {
            updates = updates + 1;
        } else if check_access(func, l, r, sites[k]) {
            accesses = accesses + 1;
        } else {
            return Some((false, budget));
        }
    }
    Some((updates == 1 && accesses > 0, budget))
}

fn secondary_uses_are_foldable(
    func: &Function,
    l: &NaturalLoop,
    r: Recurrence,
    uses: &Vec<Vec<UseSite>>,
    b: Budget,
) -> (fold: Option<(bool, Budget)>)
    requires
        func@.wf(),
        func@.has_value(r.phi),
        func@.has_value(r.update),
        plan::is_table(uses@, func@),
    ensures
        fold == uses_fold(func@, l@, r, b),
{
    assert(uses@[r.phi.0 as int]@ == plan::uses_of(func@, r.phi));
    assert(uses@[r.update.0 as int]@ == plan::uses_of(func@, r.update));
    let (fold, b1) = check_phi_uses(func, l, r, &uses[r.phi.0], b)?;
    let sites = &uses[r.update.0];
    let only_phi = sites.len() == 1 && match sites[0] {
        UseSite::PhiIncoming { phi, pred } => match phi {
            Some(v) => v == r.phi && pred == r.latch,
            None => false,
        },
        _ => false,
    };
    Some((fold && only_phi, b1))
}

// ---------------------------------------------------------------------------
// Pairs
// ---------------------------------------------------------------------------

/// The roots are one object: one value, or one global that no other shares its
/// name with.
pub open spec fn same_root(f: FuncView, unique: Seq<Seq<char>>, a: ValueId, b: ValueId) -> bool {
    a == b || match (f.value(a).kind, f.value(b).kind) {
        (ValueKindView::Global(x), ValueKindView::Global(y)) => x == y && unique.contains(x),
        _ => false,
    }
}

/// The distance in elements of the given size.
pub open spec fn distance_in(bytes: int, size: int) -> Option<i32> {
    if address::fits(bytes) && bytes % size == 0 && i32::MIN <= bytes / size <= i32::MAX {
        Some((bytes / size) as i32)
    } else {
        None
    }
}

/// Whether the addresses lie a fixed distance apart, and how far.
pub open spec fn addresses_apart(
    f: FuncView,
    unique: Seq<Seq<char>>,
    primary: AddressView,
    secondary: AddressView,
    size: int,
    b: Budget,
) -> Option<(Option<i32>, Budget)> {
    match types::worked(b, primary.terms.len() + secondary.terms.len()) {
        None => None,
        Some(b1) => if same_root(f, unique, primary.root, secondary.root) && primary.terms
            == secondary.terms {
            Some((distance_in(secondary.offset - primary.offset, size), b1))
        } else {
            Some((None, b1))
        },
    }
}

/// Whether the secondary pointer can follow the primary one, and how far from
/// it.
pub open spec fn pair_apart(
    f: FuncView,
    unique: Seq<Seq<char>>,
    list: Seq<LoopView>,
    primary: (Recurrence, AddressView),
    secondary: (Recurrence, Option<AddressView>),
    size: int,
    taken: bool,
    b: Budget,
) -> Option<(Option<i32>, Budget)> {
    let (p, s) = (primary.0, secondary.0);
    match types::worked(b, 1) {
        None => None,
        Some(b1) => if taken || p.at != s.at || p.latch != s.latch || p.step != s.step {
            Some((None, b1))
        } else {
            match types::equal_types(f.value(p.phi).ty, f.value(s.phi).ty, b1) {
                None => None,
                Some((false, b2)) => Some((None, b2)),
                Some((true, b2)) => match uses_fold(f, list[s.at as int], s, b2) {
                    None => None,
                    Some((false, b3)) => Some((None, b3)),
                    Some((true, b3)) => match secondary.1 {
                        None => Some((None, b3)),
                        Some(a) => addresses_apart(f, unique, primary.1, a, size, b3),
                    },
                },
            }
        },
    }
}

/// What was chosen: the plans, and which pointers were given up.
pub struct Choice {
    pub plans: Seq<Plan>,
    pub taken: Seq<bool>,
}

/// The choice with the pointers from place `k` on that follow pointer `i`.
pub open spec fn followers(
    f: FuncView,
    unique: Seq<Seq<char>>,
    list: Seq<LoopView>,
    recs: Seq<Recurrence>,
    addrs: Seq<Option<AddressView>>,
    i: int,
    size: int,
    c: Choice,
    b: Budget,
    k: int,
) -> Option<(Choice, Budget)>
    decreases recs.len() - k,
{
    if k < 0 || k >= recs.len() {
        Some((c, b))
    } else {
        match pair_apart(
            f,
            unique,
            list,
            (recs[i], addrs[i]->0),
            (recs[k], addrs[k]),
            size,
            c.taken[k],
            b,
        ) {
            None => None,
            Some((None, b1)) => followers(
                f,
                unique,
                list,
                recs,
                addrs,
                i,
                size,
                c,
                b1,
                k + 1,
            ),
            Some((Some(distance), b1)) => followers(
                f,
                unique,
                list,
                recs,
                addrs,
                i,
                size,
                Choice {
                    plans: c.plans.push(
                        Plan {
                            primary: recs[i].phi,
                            secondary: recs[k].phi,
                            header: list[recs[i].at as int].header,
                            distance,
                        },
                    ),
                    taken: c.taken.update(k, true),
                },
                b1,
                k + 1,
            ),
        }
    }
}

/// The size of what a pointer points to.
pub open spec fn element_size(ty: Type, b: Budget) -> Option<(Option<i64>, Budget)> {
    match ty {
        Type::Ptr(pointee) => types::size_of(*pointee, b),
        _ => Some((None, b)),
    }
}

/// The choice with the pointers from place `i` on as primary ones.
pub open spec fn chosen_from(
    f: FuncView,
    unique: Seq<Seq<char>>,
    list: Seq<LoopView>,
    recs: Seq<Recurrence>,
    addrs: Seq<Option<AddressView>>,
    c: Choice,
    b: Budget,
    i: int,
) -> Option<(Choice, Budget)>
    decreases recs.len() - i,
{
    if i < 0 || i >= recs.len() {
        Some((c, b))
    } else if c.taken[i] || addrs[i] is None {
        chosen_from(f, unique, list, recs, addrs, c, b, i + 1)
    } else {
        match element_size(f.value(recs[i].phi).ty, b) {
            None => None,
            Some((size, b1)) => if size is None || size->0 <= 0 {
                chosen_from(f, unique, list, recs, addrs, c, b1, i + 1)
            } else {
                match followers(
                    f,
                    unique,
                    list,
                    recs,
                    addrs,
                    i,
                    size->0 as int,
                    c,
                    b1,
                    i + 1,
                ) {
                    None => None,
                    Some((d, b2)) => chosen_from(f, unique, list, recs, addrs, d, b2, i + 1),
                }
            },
        }
    }
}

/// The addresses at which the first `n` pointers start.
pub open spec fn starts_of(
    f: FuncView,
    ranges: Seq<Option<(i64, i64)>>,
    recs: Seq<Recurrence>,
    b: Budget,
    n: int,
) -> Option<(Seq<Option<AddressView>>, Budget)>
    decreases n,
{
    if n <= 0 {
        Some((Seq::empty(), b))
    } else {
        match starts_of(f, ranges, recs, b, n - 1) {
            None => None,
            Some((before, b1)) => match address::address_of(f, ranges, recs[n - 1].initial, b1) {
                None => None,
                Some((a, b2)) => Some((before.push(a), b2)),
            },
        }
    }
}

/// The function is small enough to be looked at.
pub open spec fn is_small(f: FuncView) -> bool {
    &&& f.blocks.len() <= MAX_FUNCTION_BLOCKS
    &&& f.values.len() <= MAX_FUNCTION_VALUES
    &&& budget::insts_in(f) <= MAX_FUNCTION_INSTRUCTIONS
    &&& plan::sites_in(f).len() <= plan::MAX_VALUE_USES
}

/// What is chosen, before any budget is looked at.
pub open spec fn choice_of(f: FuncView, unique: Seq<Seq<char>>) -> Option<Choice> {
    let list = loops::loops_of(f);
    let n = list.len() as int;
    match types::worked(Budget { work: 0, type_nodes: 0 }, plan::sites_in(f).len()) {
        None => None,
        Some(b1) => match address::ranges_of(f, list, b1, n) {
            None => None,
            Some((ranges, b2)) => match plan::recurrences_of(f, list, b2, n) {
                None => None,
                Some((recs, b3)) => match starts_of(f, ranges, recs, b3, recs.len() as int) {
                    None => None,
                    Some((addrs, b4)) => {
                        let none = Choice {
                            plans: Seq::empty(),
                            taken: Seq::new(recs.len(), |k: int| false),
                        };
                        match chosen_from(f, unique, list, recs, addrs, none, b4, 0) {
                            None => None,
                            Some((c, _)) => Some(c),
                        }
                    },
                },
            },
        },
    }
}

/// The pointers to coalesce; none where the search runs out of its budget.
pub open spec fn plans_of(f: FuncView, unique: Seq<Seq<char>>) -> Seq<Plan> {
    if is_small(f) {
        match choice_of(f, unique) {
            Some(c) => c.plans,
            None => Seq::empty(),
        }
    } else {
        Seq::empty()
    }
}

// ---------------------------------------------------------------------------
// Executable functions
// ---------------------------------------------------------------------------

pub open spec fn texts(list: Seq<String>) -> Seq<Seq<char>> {
    list.map_values(|s: String| s@)
}

fn has_text(list: &Vec<String>, text: &String) -> (r: bool)
    ensures
        r == texts(list@).contains(text@),
{
    let n = list.len();
    for k in 0..n
        invariant
            n == list.len(),
            forall|j: int| 0 <= j < k ==> (#[trigger] list@[j])@ != text@,
    {
        assert(texts(list@)[k as int] == list@[k as int]@);
        if list[k] == *text {
            assert(texts(list@).contains(text@));
            return true;
        }
    }
    assert forall|j: int| 0 <= j < texts(list@).len() implies texts(list@)[j] != text@ by {
        assert(texts(list@)[j] == list@[j]@);
    }
    false
}

fn roots_equal(func: &Function, unique: &Vec<String>, a: ValueId, b: ValueId) -> (r: bool)
    requires
        func@.has_value(a),
        func@.has_value(b),
    ensures
        r == same_root(func@, texts(unique@), a, b),
{
    if a == b {
        return true;
    }
    assert(func.values@[a.0 as int]@ == func@.value(a));
    assert(func.values@[b.0 as int]@ == func@.value(b));
    match (&func.values[a.0].kind, &func.values[b.0].kind) {
        (ValueKind::Global(x), ValueKind::Global(y)) => *x == *y && has_text(
            unique,
            x,
        ),
        _ => false,
    }
}

fn terms_equal(a: &Vec<(ValueId, i64)>, b: &Vec<(ValueId, i64)>) -> (r: bool)
    ensures
        r == (a@ == b@),
{
    let n = a.len();
    if n != b.len() {
        return false;
    }
    for k in 0..n
        invariant
            n == a.len(),
            n == b.len(),
            forall|j: int| 0 <= j < k ==> #[trigger] a@[j] == b@[j],
    {
        if a[k].0 != b[k].0 || a[k].1 != b[k].1 {
            assert(a@[k as int] != b@[k as int]);
            return false;
        }
    }
    assert(a@ =~= b@);
    true
}

fn find_distance(from: i64, to: i64, size: i64) -> (r: Option<i32>)
    requires
        1 <= size <= i32::MAX,
    ensures
        r == distance_in(to - from, size as int),
{
    let bytes = to as i128 - from as i128;
    if bytes < i64::MIN as i128 || bytes > i64::MAX as i128 {
        return None;
    }
    let negative = bytes < 0;
    let m = if negative {
        (-bytes) as u128
    } else {
        bytes as u128
    };
    let s = size as u128;
    let q = m / s;
    let rest = m % s;
    proof {
        div_mod::lemma_fundamental_div_mod(m as int, s as int);
        let d = size as int;
        if negative {
            if rest == 0 {
                assert(bytes as int == (-(q as int)) * d) by (nonlinear_arith)
                    requires
                        -(bytes as int) == m as int,
                        m as int == s as int * q as int + rest as int,
                        rest == 0,
                        s as int == d,
                ;
                div_mod::lemma_fundamental_div_mod_converse(bytes as int, d, -(q as int), 0);
            } else {
                assert(bytes as int == (-(q as int) - 1) * d + (d - rest as int))
                    by (nonlinear_arith)
                    requires
                        -(bytes as int) == m as int,
                        m as int == s as int * q as int + rest as int,
                        s as int == d,
                ;
                div_mod::lemma_fundamental_div_mod_converse(
                    bytes as int,
                    d,
                    -(q as int) - 1,
                    d - rest as int,
                );
            }
        }
    }
    if rest != 0 {
        return None;
    }
    if negative {
        if q <= 0x8000_0000 {
            Some((-(q as i128)) as i32)
        } else {
            None
        }
    } else if q <= 0x7fff_ffff {
        Some(q as i32)
    } else {
        None
    }
}

fn compare_addresses(
    func: &Function,
    unique: &Vec<String>,
    primary: &Address,
    secondary: &Address,
    size: i64,
    b: Budget,
) -> (r: Option<(Option<i32>, Budget)>)
    requires
        func@.has_value(primary.root),
        func@.has_value(secondary.root),
        1 <= size <= i32::MAX,
    ensures
        r == addresses_apart(
            func@,
            texts(unique@),
            primary@,
            secondary@,
            size as int,
            b,
        ),
{
    let (x, y) = (primary.terms.len(), secondary.terms.len());
    if x > types::MAX_PROOF_WORK || y > types::MAX_PROOF_WORK {
        return None;
    }
    let b1 = spend(b, x + y)?;
    if roots_equal(func, unique, primary.root, secondary.root) && terms_equal(
        &primary.terms,
        &secondary.terms,
    ) {
        Some((find_distance(primary.offset, secondary.offset, size), b1))
    } else {
        Some((None, b1))
    }
}

pub open spec fn addresses_view(list: Seq<Option<Address>>) -> Seq<Option<AddressView>> {
    list.map_values(|a: Option<Address>| optional_view(a))
}

pub open spec fn optional_view(a: Option<Address>) -> Option<AddressView> {
    match a {
        Some(x) => Some(x@),
        None => None,
    }
}

/// The roots of the addresses exist.
pub open spec fn roots_in(f: FuncView, list: Seq<Option<Address>>) -> bool {
    forall|k: int|
        0 <= k < list.len() ==> (#[trigger] list[k] matches Some(a) ==> f.has_value(a.root))
}

/// What the search looks at.
struct Search<'a> {
    func: &'a Function,
    unique: &'a Vec<String>,
    list: &'a Vec<NaturalLoop>,
    uses: &'a Vec<Vec<UseSite>>,
    recs: &'a Vec<Recurrence>,
    addrs: &'a Vec<Option<Address>>,
}

impl<'a> Search<'a> {
    spec fn wf(self) -> bool {
        &&& self.func@.wf()
        &&& plan::is_table(self.uses@, self.func@)
        &&& plan::recurrences_in(self.func@, self.list@.len(), self.recs@)
        &&& self.addrs.len() == self.recs.len()
        &&& roots_in(self.func@, self.addrs@)
    }
}

fn compare_pair(
    s: &Search,
    i: usize,
    k: usize,
    size: i64,
    taken: bool,
    b: Budget,
) -> (r: Option<(Option<i32>, Budget)>)
    requires
        s.wf(),
        i < s.recs.len(),
        k < s.recs.len(),
        s.addrs@[i as int] is Some,
        1 <= size <= i32::MAX,
    ensures
        r == pair_apart(
            s.func@,
            texts(s.unique@),
            loops::loops_view(s.list@),
            (s.recs@[i as int], addresses_view(s.addrs@)[i as int]->0),
            (s.recs@[k as int], addresses_view(s.addrs@)[k as int]),
            size as int,
            taken,
            b,
        ),
{
    let func = s.func;
    let (p, q) = (s.recs[i], s.recs[k]);
    assert(plan::recurrence_in(func@, s.list@.len(), s.recs@[i as int]));
    assert(plan::recurrence_in(func@, s.list@.len(), s.recs@[k as int]));
    let b1 = spend(b, 1)?;
    if taken || p.at != q.at || p.latch != q.latch || p.step != q.step {
        return Some((None, b1));
    }
    assert(func.values@[p.phi.0 as int]@ == func@.value(p.phi));
    assert(func.values@[q.phi.0 as int]@ == func@.value(q.phi));
    let (same, b2) = types_equal_bounded(
        &func.values[p.phi.0].ty,
        &func.values[q.phi.0].ty,
        b1,
    )?;
    if !same {
        return Some((None, b2));
    }
    assert(loops::loops_view(s.list@)[q.at as int] == s.list@[q.at as int]@);
    let (fold, b3) = secondary_uses_are_foldable(func, &s.list[q.at], q, s.uses, b2)?;
    if !fold {
        return Some((None, b3));
    }
    assert(addresses_view(s.addrs@)[i as int] == optional_view(s.addrs@[i as int]));
    assert(addresses_view(s.addrs@)[k as int] == optional_view(s.addrs@[k as int]));
    assert(s.addrs@[i as int] matches Some(a) ==> func@.has_value(a.root));
    assert(s.addrs@[k as int] matches Some(a) ==> func@.has_value(a.root));
    match (&s.addrs[i], &s.addrs[k]) {
        (Some(x), Some(y)) => compare_addresses(func, s.unique, x, y, size, b3),
        _ => Some((None, b3)),
    }
}

pub open spec fn choice_view(
    r: Option<Budget>,
    plans: Seq<Plan>,
    taken: Seq<bool>,
) -> Option<(Choice, Budget)> {
    match r {
        Some(b) => Some((Choice { plans, taken }, b)),
        None => None,
    }
}

/// Every plan names parts that exist.
pub open spec fn plans_in(f: FuncView, plans: Seq<Plan>) -> bool {
    forall|k: int| 0 <= k < plans.len() ==> plan_in(f, #[trigger] plans[k])
}

pub open spec fn plan_in(f: FuncView, p: Plan) -> bool {
    f.has_value(p.primary) && f.has_value(p.secondary) && f.has_block(p.header)
}

fn find_followers(
    s: &Search,
    i: usize,
    size: i64,
    plans: &mut Vec<Plan>,
    taken: &mut Vec<bool>,
    b: Budget,
) -> (r: Option<Budget>)
    requires
        s.wf(),
        i < s.recs.len(),
        old(taken).len() == s.recs.len(),
        s.addrs@[i as int] is Some,
        1 <= size <= i32::MAX,
        plans_in(s.func@, old(plans)@),
        forall|k: int|
            0 <= k < s.list.len() ==> (#[trigger] s.list@[k])@.within(s.func@.blocks.len()),
    ensures
        choice_view(r, final(plans)@, final(taken)@) == followers(
            s.func@,
            texts(s.unique@),
            loops::loops_view(s.list@),
            s.recs@,
            addresses_view(s.addrs@),
            i as int,
            size as int,
            (Choice { plans: old(plans)@, taken: old(taken)@ }),
            b,
            i + 1,
        ),
        final(taken).len() == old(taken).len(),
        plans_in(s.func@, final(plans)@),
{
    let ghost f = s.func@;
    let ghost names = texts(s.unique@);
    let ghost views = loops::loops_view(s.list@);
    let ghost addrs = addresses_view(s.addrs@);
    let ghost start = Choice { plans: plans@, taken: taken@ };
    let mut budget = b;
    let n = s.recs.len();
    for k in i + 1..n
        invariant
            s.wf(),
            n == s.recs.len(),
            i < n,
            f == s.func@,
            names == texts(s.unique@),
            views == loops::loops_view(s.list@),
            addrs == addresses_view(s.addrs@),
            taken.len() == n,
            s.addrs@[i as int] is Some,
            1 <= size <= i32::MAX,
            plans_in(f, plans@),
            forall|k: int|
                0 <= k < s.list.len() ==> (#[trigger] s.list@[k])@.within(f.blocks.len()),
            start == (Choice { plans: old(plans)@, taken: old(taken)@ }),
            old(taken).len() == n,
            followers(
                f,
                names,
                views,
                s.recs@,
                addrs,
                i as int,
                size as int,
                start,
                b,
                i + 1,
            ) == followers(
                f,
                names,
                views,
                s.recs@,
                addrs,
                i as int,
                size as int,
                (Choice { plans: plans@, taken: taken@ }),
                budget,
                k as int,
            ),
    {
        assert(plan::recurrence_in(f, s.list@.len(), s.recs@[i as int]));
        assert(plan::recurrence_in(f, s.list@.len(), s.recs@[k as int]));
        let (distance, rest) = compare_pair(s, i, k, size, taken[k], budget)?;
        budget = rest;
        if let Some(d) = distance {
            let at = s.recs[i].at;
            assert(views[at as int] == s.list@[at as int]@);
            assert(s.list@[at as int]@.within(f.blocks.len()));
            plans.push(
                Plan {
                    primary: s.recs[i].phi,
                    secondary: s.recs[k].phi,
                    header: s.list[at].header,
                    distance: d,
                },
            );
            taken.set(k, true);
        }
    }
    Some(budget)
}

fn size_of_element(ty: &Type, b: Budget) -> (r: Option<(Option<i64>, Budget)>)
    ensures
        r == element_size(*ty, b),
        r matches Some((Some(s), _)) ==> 0 <= s <= i32::MAX,
{
    match ty {
        Type::Ptr(pointee) => checked_type_size(&**pointee, b),
        _ => Some((None, b)),
    }
}

fn choose_plans(s: &Search, b: Budget) -> (r: Option<Vec<Plan>>)
    requires
        s.wf(),
        forall|k: int|
            0 <= k < s.list.len() ==> (#[trigger] s.list@[k])@.within(s.func@.blocks.len()),
    ensures
        ({
            let none = Choice {
                plans: Seq::empty(),
                taken: Seq::new(s.recs@.len(), |k: int| false),
            };
            let want = chosen_from(
                s.func@,
                texts(s.unique@),
                loops::loops_view(s.list@),
                s.recs@,
                addresses_view(s.addrs@),
                none,
                b,
                0,
            );
            match r {
                Some(plans) => want matches Some((c, _)) && c.plans == plans@,
                None => want is None,
            }
        }),
        r matches Some(plans) ==> plans_in(s.func@, plans@),
{
    let ghost f = s.func@;
    let ghost names = texts(s.unique@);
    let ghost views = loops::loops_view(s.list@);
    let ghost addrs = addresses_view(s.addrs@);
    let func = s.func;
    let n = s.recs.len();
    let mut taken: Vec<bool> = Vec::new();
    for k in 0..n
        invariant
            taken.len() == k,
            forall|j: int| 0 <= j < k ==> !(#[trigger] taken@[j]),
    {
        taken.push(false);
    }
    assert(taken@ =~= Seq::new(s.recs@.len(), |k: int| false));
    let mut plans: Vec<Plan> = Vec::new();
    assert(plans@ =~= Seq::empty());
    let ghost start = Choice { plans: plans@, taken: taken@ };
    let mut budget = b;
    for i in 0..n
        invariant
            s.wf(),
            n == s.recs.len(),
            f == s.func@,
            *func == *s.func,
            names == texts(s.unique@),
            views == loops::loops_view(s.list@),
            addrs == addresses_view(s.addrs@),
            taken.len() == n,
            plans_in(f, plans@),
            start.plans == Seq::<Plan>::empty(),
            start.taken == Seq::new(s.recs@.len(), |k: int| false),
            forall|k: int|
                0 <= k < s.list.len() ==> (#[trigger] s.list@[k])@.within(f.blocks.len()),
            chosen_from(f, names, views, s.recs@, addrs, start, b, 0) == chosen_from(
                f,
                names,
                views,
                s.recs@,
                addrs,
                (Choice { plans: plans@, taken: taken@ }),
                budget,
                i as int,
            ),
    {
        assert(addrs[i as int] == optional_view(s.addrs@[i as int]));
        if !taken[i] && s.addrs[i].is_some() {
            assert(plan::recurrence_in(f, s.list@.len(), s.recs@[i as int]));
            let phi = s.recs[i].phi;
            assert(func.values@[phi.0 as int]@ == func@.value(phi));
            let (size, rest) = size_of_element(&func.values[phi.0].ty, budget)?;
            budget = rest;
            if let Some(bytes) = size {
                if bytes > 0 {
                    budget = find_followers(s, i, bytes, &mut plans, &mut taken, budget)?;
                }
            }
        }
    }
    Some(plans)
}

pub open spec fn starts_view(r: Option<(Vec<Option<Address>>, Budget)>) -> Option<
    (Seq<Option<AddressView>>, Budget),
> {
    match r {
        Some((list, b)) => Some((addresses_view(list@), b)),
        None => None,
    }
}

proof fn lemma_starts_stop(
    f: FuncView,
    ranges: Seq<Option<(i64, i64)>>,
    recs: Seq<Recurrence>,
    b: Budget,
    i: int,
    n: int,
)
    requires
        i <= n,
        starts_of(f, ranges, recs, b, i) is None,
    ensures
        starts_of(f, ranges, recs, b, n) is None,
    decreases n - i,
{
    if i < n {
        lemma_starts_stop(f, ranges, recs, b, i, n - 1);
    }
}

fn find_starts(
    func: &Function,
    ranges: &Vec<Option<(i64, i64)>>,
    recs: &Vec<Recurrence>,
    b: Budget,
    Ghost(count): Ghost<nat>,
) -> (r: Option<(Vec<Option<Address>>, Budget)>)
    requires
        func@.wf(),
        ranges.len() == func@.values.len(),
        address::ranges_fit(ranges@),
        plan::recurrences_in(func@, count, recs@),
    ensures
        starts_view(r) == starts_of(func@, ranges@, recs@, b, recs.len() as int),
        r matches Some((list, _)) ==> list.len() == recs.len() && roots_in(func@, list@),
{
    let mut list: Vec<Option<Address>> = Vec::new();
    let mut budget = b;
    let n = recs.len();
    assert(addresses_view(list@) =~= Seq::empty());
    for k in 0..n
        invariant
            func@.wf(),
            n == recs.len(),
            ranges.len() == func@.values.len(),
            address::ranges_fit(ranges@),
            plan::recurrences_in(func@, count, recs@),
            list.len() == k,
            roots_in(func@, list@),
            starts_of(func@, ranges@, recs@, b, k as int) == Some(
                (addresses_view(list@), budget),
            ),
    {
        assert(plan::recurrence_in(func@, count, recs@[k as int]));
        match analyze_initial_address(func, ranges, recs[k].initial, budget) {
            Some((a, rest)) => {
                budget = rest;
                let ghost before = addresses_view(list@);
                list.push(a);
                assert(addresses_view(list@) =~= before.push(optional_view(a)));
            },
            None => {
                proof {
                    lemma_starts_stop(func@, ranges@, recs@, b, k + 1, n as int);
                }
                return None;
            },
        }
    }
    Some((list, budget))
}

fn search_plans(func: &Function, unique: &Vec<String>) -> (r: Option<Vec<Plan>>)
    requires
        func@.wf(),
        plan::sites_in(func@).len() <= plan::MAX_VALUE_USES,
    ensures
        match r {
            Some(plans) => choice_of(func@, texts(unique@)) matches Some(c) && c.plans == plans@,
            None => choice_of(func@, texts(unique@)) is None,
        },
        r matches Some(plans) ==> plans_in(func@, plans@),
{
    let ghost f = func@;
    let (uses, b1) = collect_uses(func, Budget { work: 0, type_nodes: 0 })?;
    let graph = ControlFlowGraph::new(func);
    let dom = Dominators::new(func, &graph);
    let info = LoopInfo::new(func, &graph, &dom);
    let list = info.loops();
    let ghost views = loops::loops_of(f);
    assert forall|k: int| 0 <= k < list.len() implies (#[trigger] list@[k])@.within(
        f.blocks.len(),
    ) by {
        assert(views[k] == list@[k]@);
        loops::lemma_listed_loop(f, k);
    }
    assert(views.len() == list.len());
    let (ranges, b2) = collect_induction_congruence_ranges(func, list, b1)?;
    let (recs, b3) = collect_recurrences(func, list, b2)?;
    let (addrs, b4) = find_starts(func, &ranges, &recs, b3, Ghost(list@.len()))?;
    let s = Search { func, unique, list, uses: &uses, recs: &recs, addrs: &addrs };
    choose_plans(&s, b4)
}

/// Finds the pointers to coalesce.
pub fn plan_coalescing(func: &Function, unique: &Vec<String>) -> (r: Vec<Plan>)
    requires
        func@.wf(),
    ensures
        r@ == plans_of(func@, texts(unique@)),
        plans_in(func@, r@),
{
    let none: Vec<Plan> = Vec::new();
    assert(none@ =~= Seq::empty());
    assert(func.blocks.len() == func@.blocks.len());
    assert(func.values.len() == func@.values.len());
    if func.blocks.len() > MAX_FUNCTION_BLOCKS || func.values.len() > MAX_FUNCTION_VALUES
        || count_insts(func) > MAX_FUNCTION_INSTRUCTIONS as u128 || !plan::uses_are_few(func) {
        return none;
    }
    match search_plans(func, unique) {
        Some(plans) => plans,
        None => none,
    }
}

} // verus!
