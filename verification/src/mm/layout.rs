//! Size and alignment of a block of memory.

use vstd::arithmetic::div_mod::{
    lemma_fundamental_div_mod, lemma_mod_multiples_basic, lemma_mod_self_0,
};
use vstd::arithmetic::power::{lemma_pow_positive, pow};
use vstd::arithmetic::power2::{
    is_pow2, is_pow2_equiv, is_pow2_exists, lemma2_to64, lemma2_to64_rest, pow2,
};
use vstd::prelude::*;

verus! {

/// A size and an alignment that do not form a layout.
#[derive(Debug, Clone, Copy, PartialEq, Eq, Structural)]
pub struct LayoutError;

/// Size and alignment of a block of memory.
///
/// The alignment is a power of two, and the size, rounded up to the
/// alignment, does not exceed `isize::MAX`. Every `Layout` that executable
/// code holds satisfies [`Layout::valid`].
#[derive(Debug, Clone, Copy, PartialEq, Eq, Structural)]
pub struct Layout {
    size: usize,
    align: usize,
}

/// Whether `size` and `align` form a layout: `align` is a power of two, and
/// `size` rounded up to a multiple of `align` is at most `isize::MAX`.
pub open spec fn valid_size_align(size: int, align: int) -> bool {
    is_pow2(align) && 0 <= size && size + align - 1 <= isize::MAX
}

/// Halving an even number keeps whether it is a power of two; an odd number
/// is one only if it is 1.
proof fn lemma_is_pow2_step(n: int)
    requires
        n > 0,
    ensures
        n % 2 == 0 ==> is_pow2(n) == is_pow2(n / 2),
        n % 2 != 0 ==> is_pow2(n) == (n == 1),
{
    reveal(is_pow2);
}

/// Of two powers of two, the larger is at least twice the smaller.
pub proof fn lemma_pow2_gap(small: int, large: int)
    requires
        is_pow2(small),
        is_pow2(large),
        small < large,
    ensures
        2 * small <= large,
    decreases large,
{
    reveal(is_pow2);
    if small > 1 {
        lemma_pow2_gap(small / 2, large / 2);
    }
}

/// A power of two divides every larger power of two.
pub proof fn lemma_pow2_divides(small: int, large: int)
    requires
        is_pow2(small),
        is_pow2(large),
        small <= large,
    ensures
        large % small == 0,
    decreases large,
{
    reveal(is_pow2);
    if small < large {
        lemma_pow2_gap(small, large);
        lemma_pow2_divides(small, large / 2);
        let half = large / 2;
        let k = half / small;
        lemma_fundamental_div_mod(half, small);
        assert(large == (2 * k) * small) by (nonlinear_arith)
            requires
                large == 2 * half,
                half == small * k,
        ;
        lemma_mod_multiples_basic(2 * k, small);
    } else {
        lemma_mod_self_0(small);
    }
}

/// A power of two that fits a machine word is at most `isize::MAX + 1`.
pub proof fn lemma_pow2_word(n: usize)
    requires
        is_pow2(n as int),
    ensures
        1 <= n <= isize::MAX + 1,
{
    assert(n >= 1) by {
        reveal(is_pow2);
    }
    let top: int = isize::MAX + 1;
    assert(top == 0x8000_0000 || top == 0x8000_0000_0000_0000);
    assert(2 * top == usize::MAX + 1);
    assert(is_pow2(top)) by {
        lemma2_to64();
        lemma2_to64_rest();
        lemma_pow_positive(2, 31);
        lemma_pow_positive(2, 63);
        assert(pow2(31) == 0x8000_0000 && pow2(63) == 0x8000_0000_0000_0000);
        assert(pow(2, 31) == 0x8000_0000 && pow(2, 63) == 0x8000_0000_0000_0000);
        assert(is_pow2_exists(top));
        is_pow2_equiv(top);
    }
    if n > top {
        lemma_pow2_gap(top, n as int);
    }
}

/// Whether `n` is a power of two.
pub fn is_power_of_two(n: usize) -> (r: bool)
    ensures
        r == is_pow2(n as int),
{
    if n == 0 {
        proof {
            reveal(is_pow2);
        }
        return false;
    }
    let mut m: usize = n;
    while m % 2 == 0
        invariant
            m > 0,
            is_pow2(m as int) == is_pow2(n as int),
        decreases m,
    {
        proof {
            lemma_is_pow2_step(m as int);
        }
        m = m / 2;
    }
    proof {
        lemma_is_pow2_step(m as int);
    }
    m == 1
}

impl Layout {
    /// The size in bytes, in contracts.
    pub closed spec fn spec_size(&self) -> usize {
        self.size
    }

    /// The alignment in bytes, in contracts.
    pub closed spec fn spec_align(&self) -> usize {
        self.align
    }

    /// Whether this value is a layout. It holds of every `Layout` that
    /// executable code can build; proofs about arbitrary values ask for it.
    #[verifier::type_invariant]
    pub open spec fn valid(self) -> bool {
        valid_size_align(self.size() as int, self.align() as int)
    }

    /// The layout of `size` bytes aligned to `align`, or an error if the
    /// two do not form one.
    pub fn from_size_align(size: usize, align: usize) -> (r: Result<Layout, LayoutError>)
        ensures
            valid_size_align(size as int, align as int) ==> r is Ok && r->Ok_0.size() == size
                && r->Ok_0.align() == align && r->Ok_0.valid(),
            !valid_size_align(size as int, align as int) ==> r is Err,
    {
        if !is_power_of_two(align) {
            return Err(LayoutError);
        }
        proof {
            lemma_pow2_word(align);
        }
        if size > (isize::MAX as usize) - (align - 1) {
            return Err(LayoutError);
        }
        Ok(Layout { size, align })
    }

    /// The size in bytes.
    #[verifier::when_used_as_spec(spec_size)]
    pub fn size(&self) -> (r: usize)
        ensures
            r == self.size(),
    {
        self.size
    }

    /// The alignment in bytes.
    #[verifier::when_used_as_spec(spec_align)]
    pub fn align(&self) -> (r: usize)
        ensures
            r == self.align(),
    {
        self.align
    }
}

} // verus!
