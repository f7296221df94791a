//! Allocation requests and address alignment.
use vstd::prelude::*;
use vstd::arithmetic::power2::{pow2, lemma_pow2_pos, lemma_pow2_strictly_increases, lemma_pow2_unfold, lemma2_to64};
use vstd::bits::{low_bits_mask, lemma_usize_low_bits_mask_is_mod};
use vstd::layout::unsigned_int_max_values;
use vstd::arithmetic::power2::lemma_pow2_adds;
use vstd::arithmetic::div_mod::lemma_mod_multiples_basic;

verus! {

/// `n` is a power of two.
pub open spec fn is_power_of_two(n: int) -> bool {
    exists|k: nat| pow2(k) == n
}

/// The smallest multiple of `align` that is at least `addr`.
pub open spec fn align_up_spec(addr: int, align: int) -> int {
    if addr % align == 0 {
        addr
    } else {
        addr - addr % align + align
    }
}

/// A power of two that fits in a `usize` has an exponent below `usize::BITS`.
pub proof fn lemma_usize_power_of_two(n: usize) -> (k: nat)
    requires
        is_power_of_two(n as int),
    ensures
        pow2(k) == n,
        k < usize::BITS,
        n > 0,
{
    let k = choose|k: nat| pow2(k) == n;
    unsigned_int_max_values();
    if k >= usize::BITS {
        if k > usize::BITS {
            lemma_pow2_strictly_increases(usize::BITS as nat, k);
        }
    }
    lemma_pow2_pos(k);
    k
}

/// Masking off the low bits of `x` below a power of two gives its remainder.
pub proof fn lemma_mask_is_mod(x: usize, align: usize)
    requires
        is_power_of_two(align as int),
    ensures
        x & ((align - 1) as usize) == x % align,
{
    let k = lemma_usize_power_of_two(align);
    assert(low_bits_mask(k) == align - 1);
    lemma_usize_low_bits_mask_is_mod(x, k);
}

proof fn lemma_align_up_mask(addr: usize, align: usize)
    requires
        is_power_of_two(align as int),
        addr + align - 1 <= usize::MAX,
    ensures
        ({
            let r = ((addr + (align - 1)) as usize) & !((align - 1) as usize);
            &&& r % align == 0
            &&& addr <= r < addr + align
        }),
{
    lemma_usize_power_of_two(align);
    let m = (align - 1) as usize;
    let s = (addr + m) as usize;
    let r = s & !m;
    assert(r & m == 0) by (bit_vector)
        requires
            r == s & !m,
    ;
    assert(r <= s && s - r <= m) by (bit_vector)
        requires
            r == s & !m,
    ;
    lemma_mask_is_mod(r, align);
}

/// A multiple of `align` in `[addr, addr + align)` is `addr` rounded up.
proof fn lemma_unique_multiple(addr: int, align: int, r: int)
    requires
        0 <= addr,
        0 < align,
        r % align == 0,
        addr <= r < addr + align,
    ensures
        r == align_up_spec(addr, align),
{
    let q = addr / align;
    let rq = r / align;
    assert(addr == q * align + addr % align) by (nonlinear_arith)
        requires
            q == addr / align,
            0 < align,
    ;
    assert(r == rq * align) by (nonlinear_arith)
        requires
            rq == r / align,
            r % align == 0,
            0 < align,
    ;
    assert(0 <= addr % align < align);
    if addr % align == 0 {
        assert(rq == q) by (nonlinear_arith)
            requires
                r == rq * align,
                addr == q * align,
                addr <= r < addr + align,
                0 < align,
        ;
        assert(r == addr);
    } else {
        assert(rq == q + 1) by (nonlinear_arith)
            requires
                r == rq * align,
                addr == q * align + addr % align,
                0 < addr % align < align,
                addr <= r < addr + align,
                0 < align,
        ;
        assert(r == q * align + align) by (nonlinear_arith)
            requires
                r == rq * align,
                rq == q + 1,
        ;
    }
}

/// Of two powers of two, the larger is a multiple of the smaller.
pub proof fn lemma_power_of_two_divides(small: int, big: int)
    requires
        is_power_of_two(small),
        is_power_of_two(big),
        small <= big,
    ensures
        big % small == 0,
{
    let a = choose|k: nat| pow2(k) == small;
    let b = choose|k: nat| pow2(k) == big;
    if b < a {
        lemma_pow2_strictly_increases(b, a);
    }
    let d = (b - a) as nat;
    lemma_pow2_adds(a, d);
    lemma_pow2_pos(a);
    assert(a + d == b);
    assert(big == pow2(d) * pow2(a)) by (nonlinear_arith)
        requires
            big == pow2(a) * pow2(d),
    ;
    lemma_mod_multiples_basic(pow2(d) as int, pow2(a) as int);
}

/// A multiple of a multiple of `a` is a multiple of `a`.
pub proof fn lemma_multiple_of_multiple(x: int, a: int, b: int)
    requires
        0 < a,
        0 < b,
        x % b == 0,
        b % a == 0,
    ensures
        x % a == 0,
{
    let p = x / b;
    let q = b / a;
    assert(x == p * b) by (nonlinear_arith)
        requires
            p == x / b,
            x % b == 0,
            0 < b,
    ;
    assert(b == q * a) by (nonlinear_arith)
        requires
            q == b / a,
            b % a == 0,
            0 < a,
    ;
    assert(x == (p * q) * a) by (nonlinear_arith)
        requires
            x == p * b,
            b == q * a,
    ;
    lemma_mod_multiples_basic(p * q, a);
}

/// Rounding up to a power of two overflows the mask computation exactly when
/// the rounded value does not fit in a `usize`.
pub proof fn lemma_align_up_overflow(addr: usize, align: usize)
    requires
        is_power_of_two(align as int),
        addr + align - 1 > usize::MAX,
    ensures
        align_up_spec(addr as int, align as int) > usize::MAX,
{
    let k = lemma_usize_power_of_two(align);
    unsigned_int_max_values();
    let top: int = usize::MAX + 1;
    let d = (usize::BITS - k) as nat;
    lemma_pow2_adds(k, d);
    assert(top == pow2(d) * align);
    let n = pow2(d) as int;
    let q = addr as int / align as int;
    let rem = addr as int % align as int;
    assert(addr == q * align + rem) by (nonlinear_arith)
        requires
            q == addr as int / align as int,
            rem == addr as int % align as int,
            0 < align,
    ;
    assert(q >= n - 1) by (nonlinear_arith)
        requires
            addr == q * align + rem,
            0 <= rem < align,
            addr + align - 1 >= n * align,
    ;
    if rem == 0 {
        assert(q >= n) by (nonlinear_arith)
            requires
                addr == q * align,
                addr + align - 1 >= n * align,
                0 < align,
        ;
        assert(addr >= n * align) by (nonlinear_arith)
            requires
                addr == q * align,
                q >= n,
                0 < align,
        ;
    } else {
        assert(addr - rem + align >= n * align) by (nonlinear_arith)
            requires
                addr == q * align + rem,
                q >= n - 1,
                0 < align,
        ;
    }
}

/// Rounding up gives a multiple of `align`, less than `align` past `addr`.
pub proof fn lemma_align_up_spec(addr: int, align: int)
    requires
        0 <= addr,
        0 < align,
    ensures
        align_up_spec(addr, align) % align == 0,
        addr <= align_up_spec(addr, align) < addr + align,
        addr % align == 0 ==> align_up_spec(addr, align) == addr,
{
    let q = addr / align;
    assert(addr == q * align + addr % align) by (nonlinear_arith)
        requires
            q == addr / align,
            0 < align,
    ;
    if addr % align != 0 {
        assert(addr - addr % align + align == (q + 1) * align) by (nonlinear_arith)
            requires
                addr == q * align + addr % align,
        ;
        lemma_mod_multiples_basic(q + 1, align);
    }
}

/// Rounds `addr` up to the nearest multiple of `align`, a power of two.
pub fn align_up(addr: usize, align: usize) -> (r: usize)
    requires
        is_power_of_two(align as int),
        addr + align - 1 <= usize::MAX,
    ensures
        r == align_up_spec(addr as int, align as int),
        r % align == 0,
        addr <= r < addr + align,
{
    proof {
        lemma_align_up_mask(addr, align);
        lemma_unique_multiple(
            addr as int,
            align as int,
            (((addr + (align - 1)) as usize) & !((align - 1) as usize)) as int,
        );
    }
    (addr + (align - 1)) & !(align - 1)
}

/// Tells whether `n` is a power of two, by doubling from one.
pub fn check_power_of_two(n: usize) -> (r: bool)
    ensures
        r == is_power_of_two(n as int),
{
    let mut p: usize = 1;
    let ghost mut k: nat = 0;
    proof {
        lemma2_to64();
    }
    while p < n
        invariant
            p == pow2(k),
            p > 0,
            forall|j: nat| j < k ==> pow2(j) != n,
        decreases usize::MAX - p,
    {
        proof {
            lemma_pow2_unfold(k + 1);
        }
        if p > usize::MAX / 2 {
            proof {
                assert forall|j: nat| pow2(j) != n by {
                    if j > k + 1 {
                        lemma_pow2_strictly_increases(k + 1, j);
                    }
                    if j == k + 1 || j > k + 1 {
                        assert(pow2(j) > usize::MAX);
                    }
                }
            }
            return false;
        }
        p = p * 2;
        proof {
            k = k + 1;
        }
    }
    proof {
        if p != n {
            assert forall|j: nat| pow2(j) != n by {
                if j > k {
                    lemma_pow2_strictly_increases(k, j);
                }
            }
        }
    }
    p == n
}

/// A request for memory: `size` bytes aligned to `align`.
///
/// A valid layout has a power-of-two alignment, and its size rounded up to
/// the alignment does not exceed `isize::MAX`.
#[derive(Clone, Copy, Debug, PartialEq, Eq)]
pub struct Layout {
    pub size: usize,
    pub align: usize,
}

impl Layout {
    pub open spec fn wf(self) -> bool {
        &&& is_power_of_two(self.align as int)
        &&& self.size + self.align - 1 <= isize::MAX
    }

    /// Builds a layout, or `None` where `align` is not a power of two or the
    /// size rounded up to `align` would exceed `isize::MAX`.
    pub fn from_size_align(size: usize, align: usize) -> (r: Option<Layout>)
        ensures
            r is Some <==> (is_power_of_two(align as int) && size + align - 1 <= isize::MAX),
            r matches Some(l) ==> l.size == size && l.align == align && l.wf(),
    {
        if !check_power_of_two(align) {
            return None;
        }
        proof {
            lemma_usize_power_of_two(align);
        }
        if align - 1 > isize::MAX as usize || size > isize::MAX as usize - (align - 1) {
            return None;
        }
        Some(Layout { size, align })
    }

    pub fn size(&self) -> (r: usize)
        ensures
            r == self.size,
    {
        self.size
    }

    pub fn align(&self) -> (r: usize)
        ensures
            r == self.align,
    {
        self.align
    }
}

} // verus!
