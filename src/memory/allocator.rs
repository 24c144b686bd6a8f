use vstd::prelude::*;

verus! {

/// Start of the kernel heap window (a canonical virtual address).
pub const HEAP_START: u64 = 0x4444_4444_0000;

/// Size of the kernel heap window (100 KiB).
pub const HEAP_SIZE: usize = 100 * 1024;

/// The allocator that never has memory to give.
pub struct Dummy;

impl Dummy {
    /// Always fails: returns 0.
    pub fn allocate(&self, size: usize, align: usize) -> (r: usize)
        ensures
            r == 0,
    {
        0
    }
}

/// `n` is a power of two.
pub open spec fn is_power_of_two(n: int) -> bool
    decreases n,
{
    if n <= 0 {
        false
    } else if n == 1 {
        true
    } else {
        n % 2 == 0 && is_power_of_two(n / 2)
    }
}

/// The smallest multiple of `align` that is at least `addr`.
pub open spec fn align_up_spec(addr: int, align: int) -> int
    recommends
        align > 0,
{
    (addr + align - 1) / align * align
}

/// Facts about rounding up that the allocators rely on.
pub proof fn lemma_align_up(addr: int, align: int)
    requires
        addr >= 0,
        align > 0,
    ensures
        align_up_spec(addr, align) % align == 0,
        addr <= align_up_spec(addr, align) < addr + align,
        addr % align == 0 ==> align_up_spec(addr, align) == addr,
        addr % align != 0 ==> align_up_spec(addr, align) == addr - addr % align + align,
        0 <= addr % align <= addr,
{
    let q = addr / align;
    let rem = addr % align;
    let x = addr + align - 1;
    vstd::arithmetic::div_mod::lemma_fundamental_div_mod(addr, align);
    vstd::arithmetic::div_mod::lemma_mod_bound(addr, align);
    vstd::arithmetic::div_mod::lemma_div_pos_is_pos(addr, align);
    assert(rem <= addr) by (nonlinear_arith)
        requires addr == align * q + rem, q >= 0, align > 0;
    if rem == 0 {
        assert(x == q * align + (align - 1)) by (nonlinear_arith)
            requires addr == align * q + rem, rem == 0, x == addr + align - 1;
        vstd::arithmetic::div_mod::lemma_div_multiples_vanish_fancy(q, align - 1, align);
        assert(q * align == addr) by (nonlinear_arith)
            requires addr == align * q + rem, rem == 0;
    } else {
        assert(x == (q + 1) * align + (rem - 1)) by (nonlinear_arith)
            requires addr == align * q + rem, x == addr + align - 1;
        vstd::arithmetic::div_mod::lemma_div_multiples_vanish_fancy(q + 1, rem - 1, align);
        assert((q + 1) * align == addr - rem + align) by (nonlinear_arith)
            requires addr == align * q + rem;
    }
    vstd::arithmetic::div_mod::lemma_mod_multiples_basic(x / align, align);
}

/// Align `addr` upwards to the alignment `align`.
pub fn align_up(addr: usize, align: usize) -> (r: usize)
    requires
        align > 0,
        align_up_spec(addr as int, align as int) <= usize::MAX,
    ensures
        r == align_up_spec(addr as int, align as int),
        r % align == 0,
        addr <= r < addr + align,
{
    proof {
        lemma_align_up(addr as int, align as int);
    }
    let rem = addr % align;
    if rem == 0 {
        addr
    } else {
        assert(rem as int == addr as int % align as int);
        assert(align_up_spec(addr as int, align as int) == addr - rem + align);
        addr - rem + align
    }
}

/// Every power of two at most `b` divides the power of two `b`.
pub proof fn lemma_power_of_two_divides(a: int, b: int)
    requires
        is_power_of_two(a),
        is_power_of_two(b),
        a <= b,
    ensures
        b % a == 0,
    decreases a,
{
    if a == 1 {
        assert(b % 1 == 0);
    } else {
        assert(b != 1);
        lemma_power_of_two_divides(a / 2, b / 2);
        let k = (b / 2) / (a / 2);
        vstd::arithmetic::div_mod::lemma_fundamental_div_mod(b / 2, a / 2);
        assert(b == k * a) by (nonlinear_arith)
            requires
                b / 2 == (a / 2) * k + (b / 2) % (a / 2),
                (b / 2) % (a / 2) == 0,
                b % 2 == 0,
                a % 2 == 0,
                b == 2 * (b / 2),
                a == 2 * (a / 2);
        vstd::arithmetic::div_mod::lemma_mod_multiples_basic(k, a);
    }
}

/// A multiple of `b` is a multiple of every divisor of `b`.
pub proof fn lemma_mod_divisor(x: int, a: int, b: int)
    requires
        a > 0,
        b > 0,
        x % b == 0,
        b % a == 0,
    ensures
        x % a == 0,
{
    vstd::arithmetic::div_mod::lemma_fundamental_div_mod(x, b);
    vstd::arithmetic::div_mod::lemma_fundamental_div_mod(b, a);
    let p = x / b;
    let q = b / a;
    assert(x == (p * q) * a) by (nonlinear_arith)
        requires x == b * p + x % b, x % b == 0, b == a * q + b % a, b % a == 0;
    vstd::arithmetic::div_mod::lemma_mod_multiples_basic(p * q, a);
}

/// The two byte ranges `[s1, s1 + n1)` and `[s2, s2 + n2)` do not overlap.
pub open spec fn disjoint(s1: int, n1: int, s2: int, n2: int) -> bool {
    s1 + n1 <= s2 || s2 + n2 <= s1
}

/// A range inside a range that misses a third range misses it too.
pub proof fn lemma_disjoint_inside(a: int, an: int, b: int, bn: int, c: int, cn: int)
    requires
        b <= a,
        an >= 0,
        a + an <= b + bn,
        disjoint(b, bn, c, cn),
    ensures
        disjoint(a, an, c, cn),
{
}

/// A request that `core::alloc::Layout` accepts: a non-zero size, a power of
/// two alignment, and a size that rounded up to the alignment fits in `isize`.
pub open spec fn valid_layout(size: int, align: int) -> bool {
    &&& size > 0
    &&& is_power_of_two(align)
    &&& size + align - 1 <= isize::MAX
}

/// Live allocations, keyed by address and holding the requested size and
/// alignment, never overlap.
pub open spec fn no_alias(live: Map<usize, (usize, usize)>) -> bool {
    forall|a: usize, b: usize|
        #![trigger live.contains_key(a), live.contains_key(b)]
        live.contains_key(a) && live.contains_key(b) && a != b ==> disjoint(
            a as int,
            live[a].0 as int,
            b as int,
            live[b].0 as int,
        )
}

/// Every live allocation starts at a multiple of its requested alignment.
pub open spec fn all_aligned(live: Map<usize, (usize, usize)>) -> bool {
    forall|a: usize| #[trigger] live.contains_key(a) ==> a as int % live[a].1 as int == 0
}

} // verus!
