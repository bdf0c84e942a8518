//! Names with a number, and names that are not taken.
use vstd::prelude::*;
use vstd::string::*;

use crate::ir::{FuncView, GlobalView, Module, ModuleView};

verus! {

/// The text of a digit.
pub open spec fn digit(d: nat) -> Seq<char> {
    if d == 0 {
        "0"@
    } else if d == 1 {
        "1"@
    } else if d == 2 {
        "2"@
    } else if d == 3 {
        "3"@
    } else if d == 4 {
        "4"@
    } else if d == 5 {
        "5"@
    } else if d == 6 {
        "6"@
    } else if d == 7 {
        "7"@
    } else if d == 8 {
        "8"@
    } else {
        "9"@
    }
}

/// The decimal text of a number.
pub open spec fn decimal(n: nat) -> Seq<char>
    decreases n,
{
    if n < 10 {
        digit(n)
    } else {
        decimal(n / 10) + digit(n % 10)
    }
}

fn digit_text(d: usize) -> (r: &'static str)
    requires
        d < 10,
    ensures
        r@ == digit(d as nat),
{
    if d == 0 {
        "0"
    } else if d == 1 {
        "1"
    } else if d == 2 {
        "2"
    } else if d == 3 {
        "3"
    } else if d == 4 {
        "4"
    } else if d == 5 {
        "5"
    } else if d == 6 {
        "6"
    } else if d == 7 {
        "7"
    } else if d == 8 {
        "8"
    } else {
        "9"
    }
}

fn push_decimal(text: &mut String, n: usize)
    ensures
        final(text)@ == old(text)@ + decimal(n as nat),
    decreases n,
{
    if n >= 10 {
        push_decimal(text, n / 10);
        let ghost before = text@;
        text.append(digit_text(n % 10));
        assert(text@ =~= old(text)@ + decimal(n as nat));
    } else {
        text.append(digit_text(n));
    }
}

/// The text with a number behind it.
pub fn numbered(prefix: &str, n: usize) -> (r: String)
    ensures
        r@ == prefix@ + decimal(n as nat),
{
    let mut text = prefix.to_owned();
    push_decimal(&mut text, n);
    text
}

/// The first text comes before the second in the order of their characters,
/// compared from place `k` on.
pub open spec fn precedes_from(a: Seq<char>, b: Seq<char>, k: int) -> bool
    decreases a.len() - k,
{
    if k < 0 || k >= b.len() {
        false
    } else if k >= a.len() {
        true
    } else if a[k] == b[k] {
        precedes_from(a, b, k + 1)
    } else {
        (a[k] as u32) < (b[k] as u32)
    }
}

/// The first text comes before the second in the order of their characters.
pub open spec fn precedes(a: Seq<char>, b: Seq<char>) -> bool {
    precedes_from(a, b, 0)
}

pub fn comes_before(a: &String, b: &String) -> (r: bool)
    ensures
        r == precedes(a@, b@),
{
    let n = a.as_str().unicode_len();
    let m = b.as_str().unicode_len();
    let mut k: usize = 0;
    while k < n && k < m
        invariant
            n == a@.len(),
            m == b@.len(),
            k <= n,
            k <= m,
            precedes(a@, b@) == precedes_from(a@, b@, k as int),
        decreases n - k,
    {
        let (x, y) = (a.as_str().get_char(k), b.as_str().get_char(k));
        if x != y {
            return (x as u32) < (y as u32);
        }
        k = k + 1;
    }
    k < m
}

/// No text comes before itself.
pub proof fn lemma_precedes_irreflexive(a: Seq<char>, k: int)
    ensures
        !precedes_from(a, a, k),
    decreases a.len() - k,
{
    if 0 <= k < a.len() {
        lemma_precedes_irreflexive(a, k + 1);
    }
}

/// The texts joined.
pub fn joined(a: &str, b: &str) -> (r: String)
    ensures
        r@ == a@ + b@,
{
    let mut text = a.to_owned();
    text.append(b);
    text
}

/// The first number from `k` on with which the prefix makes a name that is not
/// taken.
pub open spec fn free_number(taken: Seq<Seq<char>>, prefix: Seq<char>, k: nat) -> nat
    decreases usize::MAX - k,
{
    if k >= usize::MAX || !taken.contains(prefix + decimal(k)) {
        k
    } else {
        free_number(taken, prefix, k + 1)
    }
}

/// The names of the functions.
pub open spec fn func_names(m: ModuleView) -> Seq<Seq<char>> {
    m.funcs.map_values(|f: FuncView| f.name)
}

/// The names of the globals.
pub open spec fn global_names(m: ModuleView) -> Seq<Seq<char>> {
    m.globals.map_values(|g: GlobalView| g.name)
}

/// Whether a function has the name.
pub fn has_func_named(module: &Module, name: &String) -> (r: bool)
    ensures
        r == func_names(module@).contains(name@),
{
    let n = module.funcs.len();
    for k in 0..n
        invariant
            n == module.funcs.len(),
            forall|j: int| 0 <= j < k ==> #[trigger] func_names(module@)[j] != name@,
    {
        assert(module@.funcs[k as int] == module.funcs@[k as int]@);
        if module.funcs[k].name == *name {
            assert(func_names(module@)[k as int] == name@);
            return true;
        }
    }
    false
}

/// Whether a global has the name.
pub fn has_global_named(module: &Module, name: &String) -> (r: bool)
    ensures
        r == global_names(module@).contains(name@),
{
    let n = module.globals.len();
    for k in 0..n
        invariant
            n == module.globals.len(),
            forall|j: int| 0 <= j < k ==> #[trigger] global_names(module@)[j] != name@,
    {
        assert(module@.globals[k as int] == module.globals@[k as int]@);
        if module.globals[k].name == *name {
            assert(global_names(module@)[k as int] == name@);
            return true;
        }
    }
    false
}

/// A name that no function has, numbered from `start` on.
pub fn unique_func_name(module: &Module, prefix: &str, start: usize) -> (r: String)
    ensures
        r@ == prefix@ + decimal(free_number(func_names(module@), prefix@, start as nat)),
{
    let mut k = start;
    loop
        invariant
            free_number(func_names(module@), prefix@, start as nat) == free_number(
                func_names(module@),
                prefix@,
                k as nat,
            ),
        decreases usize::MAX - k,
    {
        let name = numbered(prefix, k);
        if k == usize::MAX || !has_func_named(module, &name) {
            return name;
        }
        k = k + 1;
    }
}

/// A name that no global has, numbered from `start` on.
pub fn unique_global_name(module: &Module, prefix: &str, start: usize) -> (r: String)
    ensures
        r@ == prefix@ + decimal(free_number(global_names(module@), prefix@, start as nat)),
{
    let mut k = start;
    loop
        invariant
            free_number(global_names(module@), prefix@, start as nat) == free_number(
                global_names(module@),
                prefix@,
                k as nat,
            ),
        decreases usize::MAX - k,
    {
        let name = numbered(prefix, k);
        if k == usize::MAX || !has_global_named(module, &name) {
            return name;
        }
        k = k + 1;
    }
}

/// The name is not taken, unless the numbers are used up.
pub proof fn free_number_is_free(taken: Seq<Seq<char>>, prefix: Seq<char>, k: nat)
    requires
        k <= usize::MAX,
    ensures
        free_number(taken, prefix, k) == usize::MAX || !taken.contains(
            prefix + decimal(free_number(taken, prefix, k)),
        ),
        k <= free_number(taken, prefix, k) <= usize::MAX,
    decreases usize::MAX - k,
{
    if k < usize::MAX && taken.contains(prefix + decimal(k)) {
        free_number_is_free(taken, prefix, k + 1);
    }
}

} // verus!
