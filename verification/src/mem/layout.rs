//! Size and alignment of a block of memory.
use vstd::prelude::*;

verus! {

/// `a` is a power of two.
pub open spec fn is_pow2(a: usize) -> bool {
    a != 0 && a & ((a - 1) as usize) == 0
}

/// Size and alignment of a block of memory: the alignment is a power of
/// two and the size, rounded up to it, fits in an `isize`.
#[derive(Clone, Copy, Debug, PartialEq, Eq)]
pub struct Layout {
    size: usize,
    align: usize,
}

/// A size and alignment that make no layout.
#[derive(Clone, Copy, Debug, PartialEq, Eq)]
pub struct LayoutError;

/// `size` and `align` make a layout.
pub open spec fn layout_ok(size: usize, align: usize) -> bool {
    is_pow2(align) && size + align - 1 <= isize::MAX
}

impl Layout {
    #[verifier::type_invariant]
    spec fn valid(&self) -> bool {
        layout_ok(self.size, self.align)
    }

    /// Size in bytes.
    pub closed spec fn size_spec(&self) -> usize {
        self.size
    }

    /// Alignment in bytes.
    pub closed spec fn align_spec(&self) -> usize {
        self.align
    }

    /// The layout of `size` bytes aligned to `align`; an error unless
    /// `align` is a power of two and the rounded-up size fits in an `isize`.
    pub fn from_size_align(size: usize, align: usize) -> (r: Result<Layout, LayoutError>)
        ensures
            r is Ok <==> layout_ok(size, align),
            r matches Ok(l) ==> l.size_spec() == size && l.align_spec() == align,
    {
        if align == 0 || align & (align - 1) != 0 {
            return Err(LayoutError);
        }
        if align - 1 > isize::MAX as usize || size > (isize::MAX as usize) - (align - 1) {
            return Err(LayoutError);
        }
        Ok(Layout { size, align })
    }

    /// Size in bytes.
    pub fn size(&self) -> (r: usize)
        ensures
            r == self.size_spec(),
    {
        self.size
    }

    /// Alignment in bytes.
    pub fn align(&self) -> (r: usize)
        ensures
            r == self.align_spec(),
            layout_ok(self.size_spec(), r),
    {
        proof {
            use_type_invariant(self);
        }
        self.align
    }
}

/// The least multiple of `m` that is at least `x`.
pub open spec fn round_up(x: int, m: int) -> int {
    if x % m == 0 {
        x
    } else {
        x + (m - x % m)
    }
}

/// The least multiple of `m` that is at least `x`; `None` when it does not
/// fit in a `usize`.
pub fn checked_next_multiple_of(x: usize, m: usize) -> (r: Option<usize>)
    requires
        m > 0,
    ensures
        r is Some <==> round_up(x as int, m as int) <= usize::MAX,
        r matches Some(v) ==> v == round_up(x as int, m as int),
{
    let rem = x % m;
    if rem == 0 {
        Some(x)
    } else {
        x.checked_add(m - rem)
    }
}

/// The rounded-up value is a multiple and lies less than `m` past `x`.
pub proof fn lemma_round_up(x: int, m: int)
    requires
        0 <= x,
        0 < m,
    ensures
        round_up(x, m) % m == 0,
        x <= round_up(x, m) < x + m,
{
    vstd::arithmetic::div_mod::lemma_fundamental_div_mod(x, m);
    if x % m != 0 {
        let q = x / m;
        let r = x % m;
        assert(x + (m - r) == (q + 1) * m) by (nonlinear_arith)
            requires
                x == m * q + r,
        ;
        vstd::arithmetic::div_mod::lemma_fundamental_div_mod_converse(x + (m - x % m), m, x / m + 1, 0);
    }
}

} // verus!
