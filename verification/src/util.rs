//! Assorted utilities.

use vstd::prelude::*;

verus! {

/// The smallest multiple of `align` that is at least `number`.
pub open spec fn spec_align_up(number: int, align: int) -> int {
    if number % align == 0 {
        number
    } else {
        number + align - number % align
    }
}

/// The largest multiple of `align` that is at most `number`.
pub open spec fn spec_align_down(number: int, align: int) -> int {
    number - number % align
}

/// For a power of two `a`, masking with `a - 1` is the remainder modulo `a`.
pub proof fn lemma_and_mask_is_mod(x: usize, a: usize)
    requires
        a > 0,
        a & ((a - 1) as usize) == 0,
    ensures
        x & ((a - 1) as usize) == x % a,
        x & !((a - 1) as usize) == x - x % a,
    decreases a,
{
    if a == 1 {
        assert(x & 0usize == 0) by (bit_vector);
        assert(x & !0usize == x) by (bit_vector);
    } else {
        let h: usize = a / 2;
        assert(a % 2 == 0 && h & ((h - 1) as usize) == 0 && h > 0) by (bit_vector)
            requires
                a > 1,
                a & ((a - 1) as usize) == 0,
                h == a / 2,
        ;
        lemma_and_mask_is_mod(x / 2, h);
        assert(x & ((a - 1) as usize) == 2 * ((x / 2) & ((h - 1) as usize)) + x % 2) by (bit_vector)
            requires
                a > 1,
                a % 2 == 0,
                h == a / 2,
        ;
        vstd::arithmetic::div_mod::lemma_mod_breakdown(x as int, 2, h as int);
        assert(2 * h == a);
    }
    assert(x & !((a - 1) as usize) == x - (x & ((a - 1) as usize))) by (bit_vector);
}

proof fn lemma_round_up_arith(n: int, a: int, x: int)
    requires
        a > 0,
        n >= 0,
        x == n + a - 1,
    ensures
        x - x % a == spec_align_up(n, a),
{
    let r = n % a;
    let q = n / a;
    vstd::arithmetic::div_mod::lemma_fundamental_div_mod(n, a);
    assert(n == a * q + r);
    if r == 0 {
        assert(x == q * a + (a - 1)) by (nonlinear_arith)
            requires
                n == a * q + r,
                r == 0,
                x == n + a - 1,
        ;
        vstd::arithmetic::div_mod::lemma_fundamental_div_mod_converse(x, a, q, a - 1);
    } else {
        assert(x == (q + 1) * a + (r - 1)) by (nonlinear_arith)
            requires
                n == a * q + r,
                x == n + a - 1,
        ;
        vstd::arithmetic::div_mod::lemma_fundamental_div_mod_converse(x, a, q + 1, r - 1);
    }
}

proof fn lemma_align_up_bounds(n: int, a: int)
    requires
        a > 0,
        n >= 0,
    ensures
        spec_align_up(n, a) % a == 0,
        n <= spec_align_up(n, a) < n + a,
        spec_align_up(n, a) >= n + a - 1 - (n + a - 1) % a,
{
    let r = n % a;
    let q = n / a;
    vstd::arithmetic::div_mod::lemma_fundamental_div_mod(n, a);
    if r != 0 {
        assert(n + a - r == (q + 1) * a) by (nonlinear_arith)
            requires
                n == a * q + r,
        ;
        vstd::arithmetic::div_mod::lemma_fundamental_div_mod_converse(n + a - r, a, q + 1, 0);
    }
    lemma_round_up_arith(n, a, n + a - 1);
}

pub(crate) proof fn lemma_align_down_bounds(n: int, a: int)
    requires
        a > 0,
        n >= 0,
    ensures
        spec_align_down(n, a) % a == 0,
        n - a < spec_align_down(n, a) <= n,
        0 <= n % a <= n,
{
    let r = n % a;
    let q = n / a;
    vstd::arithmetic::div_mod::lemma_fundamental_div_mod(n, a);
    assert(n - r == q * a && r <= n) by (nonlinear_arith)
        requires
            n == a * q + r,
            n >= 0,
            a > 0,
            0 <= r < a,
    ;
    vstd::arithmetic::div_mod::lemma_fundamental_div_mod_converse(n - r, a, q, 0);
}

/// Aligning down keeps order, and two aligned-down values differ by a
/// multiple of the alignment.
pub(crate) proof fn lemma_align_down_monotone(m: int, n: int, a: int)
    requires
        a > 0,
        0 <= m <= n,
    ensures
        spec_align_down(m, a) <= spec_align_down(n, a),
        (spec_align_down(n, a) - spec_align_down(m, a)) % a == 0,
{
    vstd::arithmetic::div_mod::lemma_fundamental_div_mod(n, a);
    vstd::arithmetic::div_mod::lemma_fundamental_div_mod(m, a);
    vstd::arithmetic::div_mod::lemma_div_is_ordered(m, n, a);
    let d = n / a - m / a;
    assert(spec_align_down(n, a) - spec_align_down(m, a) == d * a) by (nonlinear_arith)
        requires
            n == a * (n / a) + n % a,
            m == a * (m / a) + m % a,
            d == n / a - m / a,
    ;
    assert(d * a >= 0) by (nonlinear_arith)
        requires
            d >= 0,
            a > 0,
    ;
    vstd::arithmetic::div_mod::lemma_mod_multiples_basic(d, a);
}

/// Whether `align_up(number, align)` can be computed without overflowing:
/// the power-of-two path adds `align - 1` first, the other path adds `align`.
pub open spec fn align_up_fits(number: usize, align: usize) -> bool {
    if align & ((align - 1) as usize) == 0 {
        number + align - 1 <= usize::MAX
    } else {
        number % align == 0 || number + align <= usize::MAX
    }
}

/// Round `number` up to a multiple of `align`.
pub fn align_up(number: usize, align: usize) -> (r: usize)
    requires
        align > 0,
        align_up_fits(number, align),
    ensures
        r == spec_align_up(number as int, align as int),
        r % align == 0,
        number <= r < number + align,
{
    proof {
        lemma_align_up_bounds(number as int, align as int);
    }
    if align & (align - 1) == 0 {
        // power of two
        proof {
            lemma_align_up_bounds(number as int, align as int);
            lemma_and_mask_is_mod((number + (align - 1)) as usize, align);
            lemma_round_up_arith(number as int, align as int, number + align - 1);
        }
        (number + (align - 1)) & !(align - 1)
    } else {
        if number % align != 0 {
            number + align - (number % align)
        } else {
            number
        }
    }
}

/// Round `number` down to a multiple of `align`.
pub fn align_down(number: usize, align: usize) -> (r: usize)
    requires
        align > 0,
    ensures
        r == spec_align_down(number as int, align as int),
        r % align == 0,
        number - align < r <= number,
{
    proof {
        lemma_align_down_bounds(number as int, align as int);
    }
    if align & (align - 1) == 0 {
        // power of two
        proof {
            lemma_and_mask_is_mod(number, align);
        }
        number & !(align - 1)
    } else {
        number - (number % align)
    }
}

} // verus!

verus! {

/// Set every byte of `dest` to `value`.
pub fn set_memory(dest: &mut [u8], value: u8)
    ensures
        final(dest)@.len() == old(dest)@.len(),
        forall|i: int| 0 <= i < final(dest)@.len() ==> final(dest)@[i] == value,
{
    let mut i: usize = 0;
    while i < dest.len()
        invariant
            i <= dest@.len(),
            dest@.len() == old(dest)@.len(),
            forall|k: int| 0 <= k < i ==> dest@[k] == value,
        decreases dest@.len() - i,
    {
        dest[i] = value;
        i = i + 1;
    }
}

/// Copy as many bytes of `src` as fit into `dest`.
pub fn copy_memory(src: &[u8], dest: &mut [u8])
    ensures
        final(dest)@.len() == old(dest)@.len(),
        forall|i: int|
            0 <= i < final(dest)@.len() ==> final(dest)@[i] == if i < src@.len() {
                src@[i]
            } else {
                old(dest)@[i]
            },
{
    let n = if src.len() < dest.len() { src.len() } else { dest.len() };
    let mut i: usize = 0;
    while i < n
        invariant
            n <= src@.len(),
            n <= dest@.len(),
            n == src@.len() || n == dest@.len(),
            i <= n,
            dest@.len() == old(dest)@.len(),
            forall|k: int| 0 <= k < i ==> dest@[k] == src@[k],
            forall|k: int| i <= k < dest@.len() ==> dest@[k] == old(dest)@[k],
        decreases n - i,
    {
        dest[i] = src[i];
        i = i + 1;
    }
}

/// Set every byte of `buf` to zero.
pub fn zero_memory(buf: &mut [u8])
    ensures
        final(buf)@.len() == old(buf)@.len(),
        forall|i: int| 0 <= i < final(buf)@.len() ==> final(buf)@[i] == 0u8,
{
    set_memory(buf, 0);
}

} // verus!
