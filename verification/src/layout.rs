//! The size and the alignment of the objects of an allocation class.
use vstd::prelude::*;

use crate::mapper::is_power_of_two;

verus! {

/// The size and the alignment of a block of memory.  The alignment is
/// a power of two, and the size, when rounded up to a multiple of the
/// alignment, is at most `isize::MAX`.
#[derive(Clone, Copy, Debug)]
pub struct Layout {
    size: usize,
    align: usize,
}

/// The error for a size and an alignment that make no `Layout`.
#[derive(Clone, Copy, Debug, PartialEq, Eq, Structural)]
pub struct LayoutError;

/// `size` rounded up to a multiple of `align`.
pub open spec fn padded_size(size: int, align: int) -> int {
    if size % align == 0 {
        size
    } else {
        size + (align - size % align)
    }
}

/// The powers of two up to the size of a small page are powers of two.
pub proof fn lemma_powers_of_two()
    ensures
        is_power_of_two(1),
        is_power_of_two(2),
        is_power_of_two(4),
        is_power_of_two(8),
        is_power_of_two(16),
        is_power_of_two(32),
        is_power_of_two(64),
        is_power_of_two(128),
        is_power_of_two(256),
        is_power_of_two(512),
        is_power_of_two(1024),
        is_power_of_two(2048),
        is_power_of_two(4096),
{
    assert(1usize & 0usize == 0) by (bit_vector);
    assert(2usize & 1usize == 0) by (bit_vector);
    assert(4usize & 3usize == 0) by (bit_vector);
    assert(8usize & 7usize == 0) by (bit_vector);
    assert(16usize & 15usize == 0) by (bit_vector);
    assert(32usize & 31usize == 0) by (bit_vector);
    assert(64usize & 63usize == 0) by (bit_vector);
    assert(128usize & 127usize == 0) by (bit_vector);
    assert(256usize & 255usize == 0) by (bit_vector);
    assert(512usize & 511usize == 0) by (bit_vector);
    assert(1024usize & 1023usize == 0) by (bit_vector);
    assert(2048usize & 2047usize == 0) by (bit_vector);
    assert(4096usize & 4095usize == 0) by (bit_vector);
}

/// A padded size is the least multiple of the alignment that the size
/// does not exceed.
pub proof fn lemma_padded_size(size: int, align: int)
    requires
        0 <= size,
        0 < align,
    ensures
        padded_size(size, align) % align == 0,
        size <= padded_size(size, align) < size + align,
        size % align == 0 ==> padded_size(size, align) == size,
{
    vstd::arithmetic::div_mod::lemma_fundamental_div_mod(size, align);
    vstd::arithmetic::div_mod::lemma_mod_multiples_basic(size / align + 1, align);
    assert((size / align + 1) * align == align * (size / align) + align) by (nonlinear_arith);
}

impl View for Layout {
    type V = (usize, usize);

    /// The size and the alignment.
    closed spec fn view(&self) -> (usize, usize) {
        (self.size, self.align)
    }
}

impl Layout {
    /// What holds of every layout.
    pub open spec fn wf(&self) -> bool {
        &&& is_power_of_two(self@.1)
        &&& padded_size(self@.0 as int, self@.1 as int) <= isize::MAX
    }

    #[verifier::type_invariant]
    spec fn inv(self) -> bool {
        self.wf()
    }

    /// This layout, with its size rounded up to a multiple of its
    /// alignment.
    pub closed spec fn pad_to_align_spec(&self) -> Layout {
        Layout { size: padded_size(self.size as int, self.align as int) as usize, align: self.align }
    }

    /// What the padded layout is: the size is rounded up to a multiple
    /// of the alignment, which stays.
    pub proof fn lemma_pad_to_align(&self)
        ensures
            self.pad_to_align_spec()@ == (
                padded_size(self@.0 as int, self@.1 as int) as usize,
                self@.1,
            ),
    {
    }

    /// Constructs a `Layout` from a given `size` and `align`, or
    /// returns `LayoutError` if `align` is not a power of two, or if
    /// `size`, when rounded up to the nearest multiple of `align`,
    /// overflows `isize`.
    pub fn from_size_align(size: usize, align: usize) -> (ret: Result<Layout, LayoutError>)
        ensures
            match ret {
                Ok(layout) => {
                    &&& layout@ == (size, align)
                    &&& layout.wf()
                    &&& is_power_of_two(align)
                    &&& size + (align - 1) <= isize::MAX
                },
                Err(_) => !is_power_of_two(align) || size + (align - 1) > isize::MAX,
            },
    {
        if align == 0 || align & (align - 1) != 0 {
            return Err(LayoutError);
        }
        let slack = align - 1;
        if slack > isize::MAX as usize || size > (isize::MAX as usize) - slack {
            return Err(LayoutError);
        }
        proof {
            lemma_padded_size(size as int, align as int);
        }
        Ok(Layout { size, align })
    }

    /// The minimum size in bytes for a memory block of this layout.
    pub fn size(&self) -> (ret: usize)
        ensures
            ret == self@.0,
            self.wf(),
    {
        proof {
            use_type_invariant(self);
        }
        self.size
    }

    /// The minimum byte alignment for a memory block of this layout.
    pub fn align(&self) -> (ret: usize)
        ensures
            ret == self@.1,
            self.wf(),
    {
        proof {
            use_type_invariant(self);
        }
        self.align
    }

    /// Creates a layout by rounding the size of this layout up to a
    /// multiple of the layout's alignment.
    pub fn pad_to_align(&self) -> (ret: Layout)
        ensures
            self.wf(),
            ret.wf(),
            ret == self.pad_to_align_spec(),
            ret@ == ((padded_size(self@.0 as int, self@.1 as int)) as usize, self@.1),
            ret@.0 % ret@.1 == 0,
            self@.0 <= ret@.0 < self@.0 + self@.1,
    {
        proof {
            use_type_invariant(self);
            lemma_padded_size(self.size as int, self.align as int);
        }
        let rem = self.size % self.align;
        let size = if rem == 0 {
            self.size
        } else {
            self.size + (self.align - rem)
        };
        proof {
            lemma_padded_size(size as int, self.align as int);
        }
        Layout { size, align: self.align }
    }
}

} // verus!
