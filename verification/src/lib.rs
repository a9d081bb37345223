//! Core of a GPU resource lifecycle and sub-allocation subsystem: a
//! generational handle pool, a family of offset allocators (bump, ring,
//! free-list, bucketed slab), a deferred-destruction drop list, and a
//! double-buffered frame scheduler.
use vstd::prelude::*;

pub mod drop_list;
pub mod error;
pub mod frame;
pub mod handle;
pub mod memory;
pub mod uniforms;

verus! {

/// `value` rounded up to the nearest multiple of `alignment`.
pub open spec fn spec_align(value: int, alignment: int) -> int
    recommends
        alignment > 0,
        value >= 0,
{
    if value % alignment == 0 {
        value
    } else {
        value - value % alignment + alignment
    }
}

/// The remainder of a non-negative value is between zero and the value
/// itself, and removing it leaves a multiple of the divisor.
proof fn lemma_mod_facts(value: int, alignment: int)
    requires
        alignment > 0,
        value >= 0,
    ensures
        0 <= value % alignment <= value,
        value % alignment < alignment,
        value == alignment * (value / alignment) + value % alignment,
        value / alignment >= 0,
{
    vstd::arithmetic::div_mod::lemma_mod_division_less_than_divisor(value, alignment);
    vstd::arithmetic::div_mod::lemma_fundamental_div_mod(value, alignment);
    vstd::arithmetic::div_mod::lemma_div_pos_is_pos(value, alignment);
    assert(alignment * (value / alignment) >= 0) by (nonlinear_arith)
        requires
            alignment > 0,
            value / alignment >= 0,
    ;
}

/// The rounded value is a multiple of the alignment, is at least the
/// original value, and exceeds it by less than one alignment unit.
pub proof fn lemma_spec_align_bounds(value: int, alignment: int)
    requires
        alignment > 0,
        value >= 0,
    ensures
        spec_align(value, alignment) % alignment == 0,
        value <= spec_align(value, alignment) < value + alignment,
{
    lemma_mod_facts(value, alignment);
    let q = value / alignment;
    let r = value % alignment;
    if r != 0 {
        assert(spec_align(value, alignment) == alignment * (q + 1)) by (nonlinear_arith)
            requires
                value == alignment * q + r,
                spec_align(value, alignment) == value - r + alignment,
        ;
        vstd::arithmetic::div_mod::lemma_mod_multiples_basic(q + 1, alignment);
        assert((alignment * (q + 1)) % alignment == 0);
    } else {
        vstd::arithmetic::div_mod::lemma_mod_twice(value, alignment);
    }
}

/// A multiple of the alignment that is at least `value` is at least
/// `spec_align(value, alignment)`.
pub proof fn lemma_spec_align_is_least(value: int, alignment: int, m: int)
    requires
        alignment > 0,
        value >= 0,
        m % alignment == 0,
        m >= value,
    ensures
        m >= spec_align(value, alignment),
{
    lemma_mod_facts(value, alignment);
    lemma_mod_facts(m, alignment);
    let q = value / alignment;
    let r = value % alignment;
    let qm = m / alignment;
    if r != 0 {
        let a = spec_align(value, alignment);
        assert(a == alignment * (q + 1)) by (nonlinear_arith)
            requires
                value == alignment * q + r,
                a == value - r + alignment,
        ;
        assert(qm > q) by (nonlinear_arith)
            requires
                alignment > 0,
                m == alignment * qm,
                value == alignment * q + r,
                0 < r < alignment,
                m >= value,
        ;
        assert(m >= a) by (nonlinear_arith)
            requires
                alignment > 0,
                m == alignment * qm,
                a == alignment * (q + 1),
                qm >= q + 1,
        ;
    }
}

/// Rounds `value` up to the nearest multiple of `alignment`.
pub fn align_usize(value: usize, alignment: usize) -> (r: usize)
    requires
        alignment > 0,
        spec_align(value as int, alignment as int) <= usize::MAX,
    ensures
        r == spec_align(value as int, alignment as int),
{
    proof {
        lemma_mod_facts(value as int, alignment as int);
    }
    if value % alignment == 0 {
        value
    } else {
        value - value % alignment + alignment
    }
}

/// Rounds `value` up to the nearest multiple of `alignment`.
pub fn align_u32(value: u32, alignment: u32) -> (r: u32)
    requires
        alignment > 0,
        spec_align(value as int, alignment as int) <= u32::MAX,
    ensures
        r == spec_align(value as int, alignment as int),
{
    proof {
        lemma_mod_facts(value as int, alignment as int);
    }
    if value % alignment == 0 {
        value
    } else {
        value - value % alignment + alignment
    }
}

/// Rounds `value` up to the nearest multiple of `alignment`.
pub fn align_u64(value: u64, alignment: u64) -> (r: u64)
    requires
        alignment > 0,
        spec_align(value as int, alignment as int) <= u64::MAX,
    ensures
        r == spec_align(value as int, alignment as int),
{
    proof {
        lemma_mod_facts(value as int, alignment as int);
    }
    if value % alignment == 0 {
        value
    } else {
        value - value % alignment + alignment
    }
}

/// Copies `data` into `dst` at `offset`, leaving every other byte in
/// place: the bounds-checked write every mapped-region model uses.
pub(crate) fn write_bytes(dst: &mut Vec<u8>, offset: usize, data: &[u8])
    requires
        offset + data@.len() <= old(dst)@.len(),
    ensures
        final(dst)@.len() == old(dst)@.len(),
        final(dst)@ =~= old(dst)@.subrange(0, offset as int) + data@ + old(dst)@.subrange(
            offset + data@.len(),
            old(dst)@.len() as int,
        ),
{
    let total = dst.len();
    let mut j: usize = 0;
    while j < data.len()
        invariant
            offset + data@.len() <= dst@.len(),
            total == dst@.len(),
            j <= data@.len(),
            dst@.len() == old(dst)@.len(),
            forall|k: int| 0 <= k < offset ==> #[trigger] dst@[k] == old(dst)@[k],
            forall|k: int| 0 <= k < j ==> #[trigger] dst@[offset + k] == data@[k],
            forall|k: int|
                offset + data@.len() <= k < dst@.len() ==> #[trigger] dst@[k] == old(dst)@[k],
        decreases data@.len() - j,
    {
        dst[offset + j] = data[j];
        j += 1;
    }
    proof {
        let a = old(dst)@.subrange(0, offset as int) + data@ + old(dst)@.subrange(
            offset + data@.len(),
            old(dst)@.len() as int,
        );
        assert forall|k: int| 0 <= k < dst@.len() implies dst@[k] == a[k] by {
            if offset <= k < offset + data@.len() {
                assert(dst@[offset + (k - offset)] == data@[k - offset]);
            }
        };
        assert(dst@ =~= a);
    }
}

/// Rounding a value up to a multiple of an alignment, for each of the
/// unsigned integer widths the allocators work with.
pub trait Align<T>: Sized {
    /// When the rounded value fits in the type.
    spec fn align_req(self, alignment: T) -> bool;

    /// The rounded value.
    spec fn align_spec(self, alignment: T) -> Self;

    /// Rounds `self` up to the nearest multiple of `alignment`.
    fn align(self, alignment: T) -> (r: Self)
        requires
            self.align_req(alignment),
        ensures
            r == self.align_spec(alignment),
    ;
}

impl Align<u32> for u32 {
    open spec fn align_req(self, alignment: u32) -> bool {
        alignment > 0 && spec_align(self as int, alignment as int) <= u32::MAX
    }

    open spec fn align_spec(self, alignment: u32) -> u32 {
        spec_align(self as int, alignment as int) as u32
    }

    fn align(self, alignment: u32) -> (r: u32) {
        align_u32(self, alignment)
    }
}

impl Align<u64> for u64 {
    open spec fn align_req(self, alignment: u64) -> bool {
        alignment > 0 && spec_align(self as int, alignment as int) <= u64::MAX
    }

    open spec fn align_spec(self, alignment: u64) -> u64 {
        spec_align(self as int, alignment as int) as u64
    }

    fn align(self, alignment: u64) -> (r: u64) {
        align_u64(self, alignment)
    }
}

impl Align<usize> for usize {
    open spec fn align_req(self, alignment: usize) -> bool {
        alignment > 0 && spec_align(self as int, alignment as int) <= usize::MAX
    }

    open spec fn align_spec(self, alignment: usize) -> usize {
        spec_align(self as int, alignment as int) as usize
    }

    fn align(self, alignment: usize) -> (r: usize) {
        align_usize(self, alignment)
    }
}

} // verus!
