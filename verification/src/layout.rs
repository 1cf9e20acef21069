//! The layout of a block of memory, and the size class that it belongs to.

use vstd::arithmetic::power2::{lemma_pow2_pos, lemma_pow2_strictly_increases, lemma_pow2_unfold, pow2};
use vstd::prelude::*;
use vstd::std_specs::bits::u64_leading_zeros;

use crate::PAGE_SIZE;

verus! {

/// Whether a number is a power of two.
pub open spec fn power_of_two(n: int) -> bool {
    exists|k: nat| n == #[trigger] pow2(k)
}

/// Whether a number is a power of two.
fn is_power_of_two(n: u64) -> (r: bool)
    ensures
        r == power_of_two(n as int),
{
    let mut power: u64 = 1;
    let ghost mut k: nat = 0;
    proof {
        vstd::arithmetic::power2::lemma2_to64();
    }
    while power < n && power <= u64::MAX / 2
        invariant
            power == pow2(k),
            k > 0 ==> pow2((k - 1) as nat) < n,
        decreases u64::MAX - power,
    {
        proof {
            lemma_pow2_unfold(k + 1);
            lemma_pow2_pos(k);
            k = k + 1;
        }
        power = power * 2;
    }
    proof {
        if power < n {
            lemma_pow2_unfold(k + 1);
            k = k + 1;
        }
        if power != n {
            assert forall|j: nat| n != #[trigger] pow2(j) by {
                if j < k {
                    if j < k - 1 {
                        lemma_pow2_strictly_increases(j, (k - 1) as nat);
                    }
                } else if j > k {
                    lemma_pow2_strictly_increases(k, j);
                }
            }
        }
    }
    power == n
}

/// The parameters are not those of a block of memory.
#[derive(Debug, Clone, Copy, PartialEq, Eq, Structural)]
pub struct LayoutError;

/// The size and the alignment of a block of memory. The alignment is a power of two, and the
/// size, rounded up to a multiple of it, is at most the greatest signed number.
#[derive(Debug, Clone, Copy, PartialEq, Eq)]
pub struct Layout {
    size: u64,
    align: u64,
}

/// Whether these are the size and the alignment of a block of memory.
pub open spec fn layout_valid(size: int, align: int) -> bool {
    power_of_two(align) && size <= i64::MAX - (align - 1)
}

impl Layout {
    #[verifier::type_invariant]
    closed spec fn valid(self) -> bool {
        layout_valid(self.size as int, self.align as int)
    }

    /// The size.
    pub closed spec fn spec_size(&self) -> int {
        self.size as int
    }

    /// The alignment.
    pub closed spec fn spec_align(&self) -> int {
        self.align as int
    }

    /// The least number of bytes that a block needs, so that the block is large enough and, as
    /// each block is aligned to its size, aligned enough.
    pub open spec fn need(&self) -> int {
        if self.spec_size() >= self.spec_align() {
            self.spec_size()
        } else {
            self.spec_align()
        }
    }

    /// The layout of a block with the given size and alignment.
    pub fn from_size_align(size: u64, align: u64) -> (layout: Result<Layout, LayoutError>)
        ensures
            layout is Ok <==> layout_valid(size as int, align as int),
            layout matches Ok(l) ==> l.spec_size() == size && l.spec_align() == align,
    {
        if !is_power_of_two(align) {
            return Err(LayoutError);
        }
        proof {
            let k = choose|k: nat| align == #[trigger] pow2(k);
            lemma_pow2_pos(k);
        }
        if align - 1 > 0x7FFF_FFFF_FFFF_FFFF || size > 0x7FFF_FFFF_FFFF_FFFF - (align - 1) {
            return Err(LayoutError);
        }
        Ok(Layout { size, align })
    }

    /// The size.
    pub fn size(&self) -> (size: u64)
        ensures
            size == self.spec_size(),
    {
        self.size
    }

    /// The alignment, which is a power of two.
    pub fn align(&self) -> (align: u64)
        ensures
            align == self.spec_align(),
            align > 0,
            power_of_two(align as int),
            layout_valid(self.spec_size(), self.spec_align()),
    {
        proof {
            use_type_invariant(self);
            let k = choose|k: nat| self.align == #[trigger] pow2(k);
            lemma_pow2_pos(k);
        }
        self.align
    }
}

/// The power of two of the smallest size class.
pub const MIN_POWER: u32 = 3;

/// The size of the blocks of a size class: a power of two.
pub open spec fn class_size(class: int) -> int {
    pow2((class + MIN_POWER) as nat) as int
}

/// The smallest size class whose blocks have `need` bytes.
pub open spec fn class_of(need: int) -> int
    decreases need,
{
    if need <= 8 {
        0
    } else {
        1 + class_of((need + 1) / 2)
    }
}

/// The blocks of the class are large enough, and those of the class below are not.
pub(crate) proof fn lemma_class_of(need: int)
    ensures
        0 <= class_of(need),
        need <= class_size(class_of(need)),
        class_of(need) > 0 ==> need > class_size(class_of(need) - 1),
    decreases need,
{
    vstd::arithmetic::power2::lemma2_to64();
    if need > 8 {
        let half = (need + 1) / 2;
        lemma_class_of(half);
        let class = class_of(half);
        lemma_pow2_unfold((class + 4) as nat);
        if class > 0 {
            lemma_pow2_unfold((class + 3) as nat);
        }
    }
}

/// There is only one class whose blocks are large enough while those of the class below are not.
pub(crate) proof fn lemma_class_unique(need: int, class: int)
    requires
        0 <= class,
        need <= class_size(class),
        class > 0 ==> need > class_size(class - 1),
    ensures
        class == class_of(need),
{
    lemma_class_of(need);
    let other = class_of(need);
    if other < class && other < class - 1 {
        lemma_pow2_strictly_increases((other + 3) as nat, (class + 2) as nat);
    }
    if class < other && class < other - 1 {
        lemma_pow2_strictly_increases((class + 3) as nat, (other + 2) as nat);
    }
}

/// The blocks of the size classes up to a page are made of words, and a number of them makes a
/// page.
pub(crate) proof fn lemma_class_size(class: int)
    requires
        0 <= class < 10,
    ensures
        8 <= class_size(class) <= PAGE_SIZE,
        class_size(class) % 8 == 0,
        PAGE_SIZE as int % class_size(class) == 0,
{
    vstd::arithmetic::power2::lemma2_to64();
    assert(class == 0 || class == 1 || class == 2 || class == 3 || class == 4 || class == 5
        || class == 6 || class == 7 || class == 8 || class == 9);
}

/// A number lies between the powers of two that its number of digits gives.
pub(crate) proof fn lemma_leading_zeros(x: u64)
    ensures
        0 <= u64_leading_zeros(x) <= 64,
        x < pow2((64 - u64_leading_zeros(x)) as nat),
        x > 0 ==> u64_leading_zeros(x) < 64 && pow2((63 - u64_leading_zeros(x)) as nat) <= x,
    decreases x,
{
    vstd::std_specs::bits::axiom_u64_leading_zeros(x);
    reveal(u64_leading_zeros);
    vstd::arithmetic::power2::lemma2_to64();
    if x > 0 {
        lemma_leading_zeros(x / 2);
        lemma_pow2_unfold((64 - u64_leading_zeros(x)) as nat);
        if x / 2 > 0 {
            lemma_pow2_unfold((63 - u64_leading_zeros(x)) as nat);
        }
    }
}

} // verus!
