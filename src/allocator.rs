//! Alignment arithmetic and the errors shared by the allocation strategies.
use vstd::prelude::*;

pub mod bump;
pub mod heap_init;
pub mod linked_list;

verus! {

/// Virtual address at which the kernel heap begins.
pub const HEAP_START: u64 = 0x4444_4444_0000;

/// Size of the kernel heap in bytes (100 KiB).
pub const HEAP_SIZE: usize = 100 * 1024;

/// Why an allocation request could not be served.
#[derive(Debug, Clone, Copy, PartialEq, Eq, Structural)]
pub enum AllocError {
    /// The end of the requested block does not fit in the address type.
    AddressOverflow,
    /// The bump cursor would pass the end of the heap.
    OutOfSpace,
    /// No free region can hold the requested block.
    Unsatisfiable,
}

/// Whether `n` is a power of two.
pub open spec fn is_power_of_two(n: int) -> bool
    decreases n,
{
    if n <= 0 {
        false
    } else if n == 1 {
        true
    } else {
        n % 2 == 0 && is_power_of_two(n / 2)
    }
}

/// The smallest multiple of `align` that is at least `addr`.
pub open spec fn align_up_spec(addr: int, align: int) -> int {
    if addr % align == 0 {
        addr
    } else {
        addr - addr % align + align
    }
}

/// A power of two is positive.
pub proof fn lemma_power_of_two_positive(n: int)
    requires
        is_power_of_two(n),
    ensures
        n > 0,
{
}

/// Rounding up to a power of two `p` gives a multiple of `p` that is not
/// below `a`, less than `p` above it, and no greater than any other multiple
/// of `p` that is not below `a`.
pub proof fn lemma_align_up(a: int, p: int)
    requires
        a >= 0,
        is_power_of_two(p),
    ensures
        align_up_spec(a, p) >= a,
        align_up_spec(a, p) % p == 0,
        align_up_spec(a, p) - a < p,
        forall|m: int| m >= a && #[trigger] (m % p) == 0 ==> m >= align_up_spec(a, p),
{
    lemma_power_of_two_positive(p);
    let r = align_up_spec(a, p);
    assert(r % p == 0) by {
        if a % p != 0 {
            vstd::arithmetic::div_mod::lemma_mod_sub_multiples_vanish(a - a % p + p, p);
            vstd::arithmetic::div_mod::lemma_fundamental_div_mod(a, p);
            assert(a - a % p == p * (a / p));
            vstd::arithmetic::div_mod::lemma_mod_multiples_basic(a / p + 1, p);
            assert(a - a % p + p == (a / p + 1) * p) by (nonlinear_arith)
                requires
                    a - a % p == p * (a / p),
            ;
        }
    }
    assert forall|m: int| m >= a && #[trigger] (m % p) == 0 implies m >= r by {
        if a % p != 0 && m < r {
            vstd::arithmetic::div_mod::lemma_fundamental_div_mod(a, p);
            vstd::arithmetic::div_mod::lemma_fundamental_div_mod(m, p);
            let q = a / p;
            let k = m / p;
            assert(m == p * k);
            assert(a == p * q + a % p);
            assert(k > q) by (nonlinear_arith)
                requires
                    m == p * k,
                    a == p * q + a % p,
                    0 < a % p < p,
                    m >= a,
                    p > 0,
            ;
            assert(m >= p * (q + 1)) by (nonlinear_arith)
                requires
                    m == p * k,
                    k > q,
                    p > 0,
            ;
            assert(p * (q + 1) == r) by (nonlinear_arith)
                requires
                    a == p * q + a % p,
                    r == a - a % p + p,
            ;
        }
    }
}

/// Rounds `addr` up to the next multiple of `align`.
pub fn align_up(addr: usize, align: usize) -> (r: usize)
    requires
        is_power_of_two(align as int),
        align_up_spec(addr as int, align as int) <= usize::MAX,
    ensures
        r == align_up_spec(addr as int, align as int),
        r >= addr,
        r % align == 0,
        r - addr < align,
{
    proof {
        lemma_align_up(addr as int, align as int);
        vstd::arithmetic::div_mod::lemma_mod_decreases(addr as nat, align as nat);
    }
    let rem = addr % align;
    if rem == 0 {
        addr
    } else {
        addr - rem + align
    }
}

/// Rounds `addr` up to the next multiple of `align`, or `None` where that
/// multiple does not fit in a `usize`.
pub fn checked_align_up(addr: usize, align: usize) -> (r: Option<usize>)
    requires
        is_power_of_two(align as int),
    ensures
        r == (if align_up_spec(addr as int, align as int) <= usize::MAX {
            Some(align_up_spec(addr as int, align as int) as usize)
        } else {
            None
        }),
{
    proof {
        lemma_power_of_two_positive(align as int);
    }
    let rem = addr % align;
    if rem == 0 {
        Some(addr)
    } else {
        addr.checked_add(align - rem)
    }
}

} // verus!
