//! Offset allocators over an externally owned byte range: a first-fit /
//! last-fit free-list allocator, a wrap-around ring allocator, a
//! monotonic bump allocator, and a fixed-stride block allocator.
use vstd::prelude::*;
use crate::spec_align;
use crate::align_usize;
use crate::lemma_spec_align_bounds;

verus! {

/// Offset and size of one extent of a [`DynamicAllocator`] region.
#[derive(Debug, Clone, Copy)]
struct BlockData(usize, usize);

/// One extent of a [`DynamicAllocator`] region, either free or handed
/// out.
#[derive(Debug, Clone, Copy)]
enum Block {
    Free(BlockData),
    Used(BlockData),
}

impl Block {
    /// The extent as a plain triple: is-free, offset, size.
    spec fn view_triple(self) -> (bool, int, int) {
        match self {
            Block::Free(d) => (true, d.0 as int, d.1 as int),
            Block::Used(d) => (false, d.0 as int, d.1 as int),
        }
    }
}

/// Whether extent `i` of `s` is free.
pub open spec fn ext_free(s: Seq<(bool, int, int)>, i: int) -> bool {
    s[i].0
}

/// Offset of extent `i` of `s`.
pub open spec fn ext_offset(s: Seq<(bool, int, int)>, i: int) -> int {
    s[i].1
}

/// Size of extent `i` of `s`.
pub open spec fn ext_size(s: Seq<(bool, int, int)>, i: int) -> int {
    s[i].2
}

/// Sum of the sizes of all extents of `s`.
pub open spec fn ext_total_size(s: Seq<(bool, int, int)>) -> int
    decreases s.len(),
{
    if s.len() == 0 {
        0
    } else {
        ext_total_size(s.drop_last()) + s.last().2
    }
}

/// Extents tile a region: the first starts at offset zero, each next
/// one starts where the previous ends, and sizes are non-negative.
pub open spec fn ext_contiguous(s: Seq<(bool, int, int)>) -> bool {
    &&& s.len() >= 1
    &&& ext_offset(s, 0) == 0
    &&& forall|i: int|
        0 <= i < s.len() - 1 ==> ext_offset(s, i + 1) == ext_offset(s, i) + #[trigger] ext_size(
            s,
            i,
        )
    &&& forall|i: int| 0 <= i < s.len() ==> #[trigger] ext_size(s, i) >= 0
}

/// The smallest index at or after `i` of a free extent of at least
/// `need` bytes, or the extent count when there is none.
pub open spec fn ext_first_fit(s: Seq<(bool, int, int)>, need: int, i: int) -> int
    decreases s.len() - i,
{
    if i < 0 || i >= s.len() {
        s.len() as int
    } else if ext_free(s, i) && ext_size(s, i) >= need {
        i
    } else {
        ext_first_fit(s, need, i + 1)
    }
}

/// The largest index at or below `i` of a free extent of at least
/// `need` bytes, or the extent count when there is none.
pub open spec fn ext_last_fit(s: Seq<(bool, int, int)>, need: int, i: int) -> int
    decreases i + 1,
{
    if i < 0 || i >= s.len() {
        s.len() as int
    } else if ext_free(s, i) && ext_size(s, i) >= need {
        i
    } else {
        ext_last_fit(s, need, i - 1)
    }
}

/// The smallest index at or after `i` of a used extent starting at
/// `offset`, or the extent count when there is none.
pub open spec fn ext_find_used(s: Seq<(bool, int, int)>, offset: int, i: int) -> int
    decreases s.len() - i,
{
    if i < 0 || i >= s.len() {
        s.len() as int
    } else if !ext_free(s, i) && ext_offset(s, i) == offset {
        i
    } else {
        ext_find_used(s, offset, i + 1)
    }
}

/// The extent list after the front `a` bytes of free extent `i` are
/// handed out: the extent becomes used, and a remainder, if any, stays
/// free right after it.
pub open spec fn ext_split_front(s: Seq<(bool, int, int)>, i: int, a: int) -> Seq<
    (bool, int, int),
> {
    let off = ext_offset(s, i);
    let sz = ext_size(s, i);
    if a < sz {
        s.update(i, (false, off, a)).insert(i + 1, (true, off + a, sz - a))
    } else {
        s.update(i, (false, off, a))
    }
}

/// The extent list after the back `a` bytes of free extent `i` are
/// handed out: the tail of the extent becomes used, and a remainder,
/// if any, stays free right before it.
pub open spec fn ext_split_back(s: Seq<(bool, int, int)>, i: int, a: int) -> Seq<
    (bool, int, int),
> {
    let off = ext_offset(s, i);
    let sz = ext_size(s, i);
    if a < sz {
        s.update(i, (false, off + (sz - a), a)).insert(i, (true, off, sz - a))
    } else {
        s.update(i, (false, off + (sz - a), a))
    }
}

/// Two adjacent extents fused into one free extent covering both.
pub open spec fn ext_fuse(s: Seq<(bool, int, int)>, i: int) -> Seq<(bool, int, int)> {
    s.update(i, (true, ext_offset(s, i), ext_size(s, i) + ext_size(s, i + 1))).remove(i + 1)
}

/// The extent list after extent `i`, already free, merges with
/// whichever of its neighbours are free: first with the one after it,
/// then with the one before it.
pub open spec fn ext_merged_at(s: Seq<(bool, int, int)>, i: int) -> Seq<(bool, int, int)> {
    let s1 = if i + 1 < s.len() && ext_free(s, i + 1) {
        ext_fuse(s, i)
    } else {
        s
    };
    if i > 0 && ext_free(s1, i - 1) {
        ext_fuse(s1, i - 1)
    } else {
        s1
    }
}

/// Fusing a free extent with the free extent after it keeps the list
/// contiguous and the granularity invariants, leaves the region end
/// in place, and maps the surviving extents across pointwise.
proof fn lemma_fuse_step(s: Seq<(bool, int, int)>, i: int, g: int)
    requires
        g > 0,
        ext_contiguous(s),
        0 <= i < s.len() - 1,
        ext_free(s, i),
        ext_free(s, i + 1),
        forall|k: int| 0 <= k < s.len() ==> #[trigger] ext_size(s, k) % g == 0,
        forall|k: int| 0 <= k < s.len() ==> #[trigger] ext_offset(s, k) % g == 0,
    ensures
        ({
            let t = ext_fuse(s, i);
            &&& t.len() == s.len() - 1
            &&& ext_contiguous(t)
            &&& forall|k: int| 0 <= k < t.len() ==> #[trigger] ext_size(t, k) % g == 0
            &&& forall|k: int| 0 <= k < t.len() ==> #[trigger] ext_offset(t, k) % g == 0
            &&& forall|k: int| 0 <= k < i ==> t[k] == s[k]
            &&& t[i] == (true, ext_offset(s, i), ext_size(s, i) + ext_size(s, i + 1))
            &&& forall|k: int| i < k < t.len() ==> t[k] == s[k + 1]
            &&& ext_offset(t, t.len() - 1) + ext_size(t, t.len() - 1) == ext_offset(
                s,
                s.len() - 1,
            ) + ext_size(s, s.len() - 1)
        }),
{
    let t = ext_fuse(s, i);
    let m = (true, ext_offset(s, i), ext_size(s, i) + ext_size(s, i + 1));
    let u = s.update(i, m);
    u.remove_ensures(i + 1);
    assert(t == u.remove(i + 1));
    assert(t.len() == s.len() - 1);
    assert forall|k: int| 0 <= k <= i implies t[k] == u[k] by {
        assert(u.remove(i + 1)[k] == u[k]);
    };
    assert forall|k: int| i < k < t.len() implies t[k] == u[k + 1] by {
        assert(u.remove(i + 1)[k] == u[k + 1]);
    };
    vstd::arithmetic::div_mod::lemma_add_mod_noop(ext_size(s, i), ext_size(s, i + 1), g);
    assert(ext_contiguous(t)) by {
        assert(t[0] == (if i == 0 {
            m
        } else {
            s[0]
        }));
        assert forall|k: int|
            0 <= k < t.len() - 1 implies ext_offset(t, k + 1) == ext_offset(t, k)
            + #[trigger] ext_size(t, k) by {
            if k < i - 1 {
                assert(t[k] == s[k] && t[k + 1] == s[k + 1]);
                assert(ext_offset(s, k + 1) == ext_offset(s, k) + ext_size(s, k));
            } else if k == i - 1 {
                assert(t[k] == s[k] && t[k + 1] == m);
                assert(ext_offset(s, k + 1) == ext_offset(s, k) + ext_size(s, k));
            } else if k == i {
                assert(t[k] == m && t[k + 1] == s[k + 2]);
                assert(ext_offset(s, i + 1) == ext_offset(s, i) + ext_size(s, i));
                assert(ext_offset(s, i + 2) == ext_offset(s, i + 1) + ext_size(s, i + 1));
            } else {
                assert(t[k] == s[k + 1] && t[k + 1] == s[k + 2]);
                assert(ext_offset(s, k + 2) == ext_offset(s, k + 1) + ext_size(s, k + 1));
            }
        };
        assert forall|k: int| 0 <= k < t.len() implies #[trigger] ext_size(t, k) >= 0 by {
            if k < i {
                assert(t[k] == s[k]);
                assert(ext_size(s, k) >= 0);
            } else if k > i {
                assert(t[k] == s[k + 1]);
                assert(ext_size(s, k + 1) >= 0);
            } else {
                assert(ext_size(s, i) >= 0 && ext_size(s, i + 1) >= 0);
            }
        };
    }
    assert forall|k: int| 0 <= k < t.len() implies #[trigger] ext_size(t, k) % g == 0 by {
        if k < i {
            assert(t[k] == s[k]);
            assert(ext_size(s, k) % g == 0);
        } else if k > i {
            assert(t[k] == s[k + 1]);
            assert(ext_size(s, k + 1) % g == 0);
        }
    };
    assert forall|k: int| 0 <= k < t.len() implies #[trigger] ext_offset(t, k) % g == 0 by {
        if k < i {
            assert(t[k] == s[k]);
            assert(ext_offset(s, k) % g == 0);
        } else if k > i {
            assert(t[k] == s[k + 1]);
            assert(ext_offset(s, k + 1) % g == 0);
        } else {
            assert(ext_offset(s, i) % g == 0);
        }
    };
    if i == t.len() - 1 {
        assert(t.last() == m);
        assert(ext_offset(s, i + 1) == ext_offset(s, i) + ext_size(s, i));
    } else {
        assert(t.last() == s.last());
    }
}

/// Extent offsets grow along a contiguous list.
pub proof fn lemma_ext_offsets_monotone(s: Seq<(bool, int, int)>, i: int, j: int)
    requires
        ext_contiguous(s),
        0 <= i <= j < s.len(),
    ensures
        ext_offset(s, i) <= ext_offset(s, j),
    decreases j - i,
{
    if i < j {
        assert(ext_offset(s, i + 1) == ext_offset(s, i) + ext_size(s, i));
        assert(ext_size(s, i) >= 0);
        lemma_ext_offsets_monotone(s, i + 1, j);
    }
}

/// Every extent of a contiguous list ends at or before the region
/// end.
pub proof fn lemma_ext_within_region(s: Seq<(bool, int, int)>, i: int)
    requires
        ext_contiguous(s),
        0 <= i < s.len(),
    ensures
        ext_offset(s, i) >= 0,
        ext_offset(s, i) + ext_size(s, i) <= ext_offset(s, s.len() - 1) + ext_size(
            s,
            s.len() - 1,
        ),
    decreases s.len() - i,
{
    lemma_ext_offsets_monotone(s, 0, i);
    if i < s.len() - 1 {
        lemma_ext_within_region(s, i + 1);
    }
}

/// The sizes of a contiguous extent list sum to the region size: the
/// accounting law of the free-list allocator.
pub proof fn lemma_total_size_of_contiguous(s: Seq<(bool, int, int)>)
    requires
        ext_contiguous(s),
    ensures
        ext_total_size(s) == ext_offset(s, s.len() - 1) + ext_size(s, s.len() - 1),
    decreases s.len(),
{
    if s.len() == 1 {
        assert(ext_total_size(s.drop_last()) == 0);
    } else {
        let t = s.drop_last();
        assert forall|i: int| 0 <= i < t.len() implies t[i] == s[i] by {
            assert(t == s.subrange(0, s.len() - 1));
            assert(s.subrange(0, s.len() - 1)[i] == s[i]);
        };
        assert(ext_contiguous(t)) by {
            assert(t[0] == s[0]);
            assert forall|i: int|
                0 <= i < t.len() - 1 implies ext_offset(t, i + 1) == ext_offset(t, i)
                + #[trigger] ext_size(t, i) by {
                assert(t[i] == s[i] && t[i + 1] == s[i + 1]);
                assert(ext_offset(s, i + 1) == ext_offset(s, i) + ext_size(s, i));
            };
            assert forall|i: int| 0 <= i < t.len() implies #[trigger] ext_size(t, i) >= 0 by {
                assert(t[i] == s[i]);
                assert(ext_size(s, i) >= 0);
            };
        }
        lemma_total_size_of_contiguous(t);
        assert(ext_offset(s, s.len() - 2) + ext_size(s, s.len() - 2) == ext_offset(
            s,
            s.len() - 1,
        ));
    }
}

/// After `ext_merged_at`, no two adjacent free extents remain,
/// provided the only adjacent free pairs beforehand involved the
/// freed extent itself.
proof fn lemma_merged_no_adjacent_free(s: Seq<(bool, int, int)>, i: int, g: int)
    requires
        g > 0,
        ext_contiguous(s),
        0 <= i < s.len(),
        ext_free(s, i),
        forall|k: int| 0 <= k < s.len() ==> #[trigger] ext_size(s, k) % g == 0,
        forall|k: int| 0 <= k < s.len() ==> #[trigger] ext_offset(s, k) % g == 0,
        forall|k: int|
            0 <= k < s.len() - 1 && #[trigger] ext_free(s, k) && ext_free(s, k + 1) ==> k == i || k
                + 1 == i,
    ensures
        ({
            let t = ext_merged_at(s, i);
            forall|k: int|
                0 <= k < t.len() - 1 ==> !(#[trigger] ext_free(t, k) && ext_free(t, k + 1))
        }),
{
    let t = ext_merged_at(s, i);
    let r = i + 1 < s.len() && ext_free(s, i + 1);
    let s1 = if r {
        ext_fuse(s, i)
    } else {
        s
    };
    let l = i > 0 && ext_free(s1, i - 1);
    if r {
        lemma_fuse_step(s, i, g);
    }
    if r && l {
        lemma_fuse_step(s1, i - 1, g);
        assert(ext_free(s, i - 1)) by {
            assert(s1[i - 1] == s[i - 1]);
        }
        assert forall|k: int|
            0 <= k < t.len() - 1 implies !(#[trigger] ext_free(t, k) && ext_free(t, k + 1)) by {
            if k < i - 2 {
                assert(t[k] == s1[k] && t[k + 1] == s1[k + 1]);
                assert(s1[k] == s[k] && s1[k + 1] == s[k + 1]);
                assert(!(ext_free(s, k) && ext_free(s, k + 1)));
            } else if k == i - 2 {
                assert(t[k] == s1[k] && s1[k] == s[k]);
                assert(!(ext_free(s, i - 2) && ext_free(s, i - 1)));
            } else if k == i - 1 {
                assert(t[k + 1] == s1[k + 2] && s1[k + 2] == s[k + 3]);
                assert(!(ext_free(s, i + 1) && ext_free(s, i + 2)));
            } else {
                assert(t[k] == s1[k + 1] && t[k + 1] == s1[k + 2]);
                assert(s1[k + 1] == s[k + 2] && s1[k + 2] == s[k + 3]);
                assert(!(ext_free(s, k + 2) && ext_free(s, k + 3)));
            }
        };
    } else if r {
        assert forall|k: int|
            0 <= k < t.len() - 1 implies !(#[trigger] ext_free(t, k) && ext_free(t, k + 1)) by {
            if k < i - 1 {
                assert(t[k] == s[k] && t[k + 1] == s[k + 1]);
                assert(!(ext_free(s, k) && ext_free(s, k + 1)));
            } else if k == i - 1 {
                assert(t[k] == s1[i - 1] && s1[i - 1] == s[i - 1]);
                assert(!ext_free(s1, i - 1));
            } else if k == i {
                assert(t[k + 1] == s[k + 2]);
                assert(!(ext_free(s, i + 1) && ext_free(s, i + 2)));
            } else {
                assert(t[k] == s[k + 1] && t[k + 1] == s[k + 2]);
                assert(!(ext_free(s, k + 1) && ext_free(s, k + 2)));
            }
        };
    } else if l {
        lemma_fuse_step(s, i - 1, g);
        assert forall|k: int|
            0 <= k < t.len() - 1 implies !(#[trigger] ext_free(t, k) && ext_free(t, k + 1)) by {
            if k < i - 2 {
                assert(t[k] == s[k] && t[k + 1] == s[k + 1]);
                assert(!(ext_free(s, k) && ext_free(s, k + 1)));
            } else if k == i - 2 {
                assert(t[k] == s[k]);
                assert(!(ext_free(s, i - 2) && ext_free(s, i - 1)));
            } else if k == i - 1 {
                assert(t[k + 1] == s[k + 2]);
                assert(!ext_free(s, i + 1));
            } else {
                assert(t[k] == s[k + 1] && t[k + 1] == s[k + 2]);
                assert(!(ext_free(s, k + 1) && ext_free(s, k + 2)));
            }
        };
    } else {
        assert(t == s);
        assert forall|k: int|
            0 <= k < t.len() - 1 implies !(#[trigger] ext_free(t, k) && ext_free(t, k + 1)) by {
            if k == i {
                assert(!ext_free(s, i + 1));
            } else if k + 1 == i {
                assert(!ext_free(s, i - 1));
            } else {
                assert(!(ext_free(s, k) && ext_free(s, k + 1)));
            }
        };
    }
}

/// An ordered list of `Free`/`Used` extents over a fixed region,
/// supporting first-fit allocation from the front, last-fit allocation
/// from the back, and deallocation with merging of adjacent free
/// extents.
#[derive(Debug)]
pub struct DynamicAllocator {
    granularity: usize,
    blocks: Vec<Block>,
}

impl DynamicAllocator {
    /// The extent list as plain triples: is-free, offset, size.
    pub closed spec fn extents(self) -> Seq<(bool, int, int)> {
        self.blocks@.map_values(|b: Block| b.view_triple())
    }

    /// Allocation granularity: every extent size is a multiple of it.
    pub closed spec fn granularity(self) -> int {
        self.granularity as int
    }

    /// Region size: where the last extent ends.
    pub open spec fn capacity(self) -> int {
        ext_offset(self.extents(), self.extents().len() - 1) + ext_size(
            self.extents(),
            self.extents().len() - 1,
        )
    }

    /// Extent-list well-formedness: extents tile the region from
    /// offset zero without gaps or overlaps, sizes and offsets are
    /// multiples of the granularity, and no two adjacent extents are
    /// both free.
    pub closed spec fn wf(self) -> bool {
        let s = self.extents();
        &&& self.granularity > 0
        &&& ext_contiguous(s)
        &&& self.capacity() <= usize::MAX
        &&& forall|i: int| 0 <= i < s.len() ==> #[trigger] ext_size(s, i) % self.granularity() == 0
        &&& forall|i: int|
            0 <= i < s.len() ==> #[trigger] ext_offset(s, i) % self.granularity() == 0
        &&& forall|i: int| 0 <= i < s.len() - 1 ==> !(#[trigger] ext_free(s, i) && ext_free(s, i + 1))
    }

    /// One region-sized free extent over `size` bytes.
    pub fn new(size: usize, granularity: usize) -> (r: Self)
        requires
            granularity > 0,
            size % granularity == 0,
        ensures
            r.wf(),
            r.granularity() == granularity,
            r.capacity() == size,
            r.extents() =~= seq![(true, 0int, size as int)],
    {
        let mut blocks: Vec<Block> = Vec::new();
        blocks.push(Block::Free(BlockData(0, size)));
        proof {
            assert(blocks@.map_values(|b: Block| b.view_triple()) =~= seq![
                (true, 0int, size as int),
            ]);
            assert(0int % (granularity as int) == 0);
        }
        Self { blocks, granularity }
    }

    /// The first free extent that can hold `size` bytes.
    fn find_first_free_block(&self, size: usize) -> (r: Option<usize>)
        ensures
            match r {
                Some(i) => {
                    &&& i < self.extents().len()
                    &&& ext_free(self.extents(), i as int)
                    &&& ext_size(self.extents(), i as int) >= size
                    &&& forall|j: int|
                        0 <= j < i ==> !(ext_free(self.extents(), j) && ext_size(
                            self.extents(),
                            j,
                        ) >= size)
                },
                None => forall|j: int|
                    0 <= j < self.extents().len() ==> !(ext_free(self.extents(), j) && ext_size(
                        self.extents(),
                        j,
                    ) >= size),
            },
    {
        let n = self.blocks.len();
        let mut i: usize = 0;
        while i < n
            invariant
                n == self.blocks@.len(),
                i <= n,
                forall|j: int|
                    0 <= j < i ==> !(ext_free(self.extents(), j) && ext_size(self.extents(), j)
                        >= size),
            decreases n - i,
        {
            match self.blocks[i] {
                Block::Free(d) => {
                    if d.1 >= size {
                        return Some(i);
                    }
                },
                Block::Used(_) => {},
            }
            i += 1;
        }
        None
    }

    /// The last free extent that can hold `size` bytes.
    fn find_last_free_block(&self, size: usize) -> (r: Option<usize>)
        ensures
            match r {
                Some(i) => {
                    &&& i < self.extents().len()
                    &&& ext_free(self.extents(), i as int)
                    &&& ext_size(self.extents(), i as int) >= size
                    &&& forall|j: int|
                        i < j < self.extents().len() ==> !(ext_free(self.extents(), j) && ext_size(
                            self.extents(),
                            j,
                        ) >= size)
                },
                None => forall|j: int|
                    0 <= j < self.extents().len() ==> !(ext_free(self.extents(), j) && ext_size(
                        self.extents(),
                        j,
                    ) >= size),
            },
    {
        let n = self.blocks.len();
        let mut i: usize = n;
        while i > 0
            invariant
                n == self.blocks@.len(),
                i <= n,
                forall|j: int|
                    i <= j < n ==> !(ext_free(self.extents(), j) && ext_size(self.extents(), j)
                        >= size),
            decreases i,
        {
            i -= 1;
            match self.blocks[i] {
                Block::Free(d) => {
                    if d.1 >= size {
                        return Some(i);
                    }
                },
                Block::Used(_) => {},
            }
        }
        None
    }

    /// The first used extent that starts exactly at `offset`.
    fn find_used_block(&self, offset: usize) -> (r: Option<usize>)
        ensures
            match r {
                Some(i) => {
                    &&& i < self.extents().len()
                    &&& !ext_free(self.extents(), i as int)
                    &&& ext_offset(self.extents(), i as int) == offset
                    &&& forall|j: int|
                        0 <= j < i ==> !(!ext_free(self.extents(), j) && ext_offset(
                            self.extents(),
                            j,
                        ) == offset)
                },
                None => forall|j: int|
                    0 <= j < self.extents().len() ==> !(!ext_free(self.extents(), j) && ext_offset(
                        self.extents(),
                        j,
                    ) == offset),
            },
    {
        let n = self.blocks.len();
        let mut i: usize = 0;
        while i < n
            invariant
                n == self.blocks@.len(),
                i <= n,
                forall|j: int|
                    0 <= j < i ==> !(!ext_free(self.extents(), j) && ext_offset(self.extents(), j)
                        == offset),
            decreases n - i,
        {
            match self.blocks[i] {
                Block::Used(d) => {
                    if d.0 == offset {
                        return Some(i);
                    }
                },
                Block::Free(_) => {},
            }
            i += 1;
        }
        None
    }

    /// First-fit allocation: hands out `size` bytes (rounded up to the
    /// granularity) from the front of the first free extent that can
    /// hold them, or reports exhaustion without changing anything.
    pub fn allocate(&mut self, size: usize) -> (r: Option<usize>)
        requires
            old(self).wf(),
        ensures
            final(self).wf(),
            final(self).granularity() == old(self).granularity(),
            final(self).capacity() == old(self).capacity(),
            ({
                let s = old(self).extents();
                let i = ext_first_fit(s, size as int, 0);
                match r {
                    Some(offset) => {
                        &&& i < s.len()
                        &&& offset == ext_offset(s, i)
                        &&& final(self).extents() =~= ext_split_front(
                            s,
                            i,
                            spec_align(size as int, old(self).granularity()),
                        )
                    },
                    None => {
                        &&& i == s.len()
                        &&& final(self).extents() == s
                    },
                }
            }),
    {
        let ghost s = self.extents();
        let ghost g = self.granularity();
        if let Some(index) = self.find_first_free_block(size) {
            proof {
                lemma_first_fit_is_first(s, size as int, index as int);
                crate::lemma_spec_align_is_least(size as int, g, ext_size(s, index as int));
            }
            self.split_and_insert_block(index, size)
        } else {
            proof {
                lemma_first_fit_misses(s, size as int, 0);
            }
            None
        }
    }

    /// Last-fit allocation: hands out `size` bytes (rounded up to the
    /// granularity) from the back of the last free extent that can
    /// hold them, or reports exhaustion without changing anything.
    /// Allocating from the opposite end keeps front-growing and
    /// back-growing uses of one region from fragmenting each other.
    pub fn allocate_back(&mut self, size: usize) -> (r: Option<usize>)
        requires
            old(self).wf(),
        ensures
            final(self).wf(),
            final(self).granularity() == old(self).granularity(),
            final(self).capacity() == old(self).capacity(),
            ({
                let s = old(self).extents();
                let i = ext_last_fit(s, size as int, s.len() - 1);
                match r {
                    Some(offset) => {
                        &&& i < s.len()
                        &&& offset == ext_offset(s, i) + ext_size(s, i) - spec_align(
                            size as int,
                            old(self).granularity(),
                        )
                        &&& final(self).extents() =~= ext_split_back(
                            s,
                            i,
                            spec_align(size as int, old(self).granularity()),
                        )
                    },
                    None => {
                        &&& i == s.len()
                        &&& final(self).extents() == s
                    },
                }
            }),
    {
        let ghost s = self.extents();
        let ghost g = self.granularity();
        if let Some(index) = self.find_last_free_block(size) {
            proof {
                lemma_last_fit_is_last(s, size as int, index as int);
                crate::lemma_spec_align_is_least(size as int, g, ext_size(s, index as int));
            }
            self.split_and_insert_block_end(index, size)
        } else {
            proof {
                lemma_last_fit_misses(s, size as int, s.len() - 1);
            }
            None
        }
    }

    /// Returns the used extent starting at `offset` to the free list
    /// and merges it with any free neighbour, so adjacent free extents
    /// never persist. The offset must be one this allocator handed
    /// out: freeing anything else is the caller's protocol error.
    pub fn deallocate(&mut self, offset: usize)
        requires
            old(self).wf(),
            exists|j: int|
                0 <= j < old(self).extents().len() && !ext_free(old(self).extents(), j)
                    && ext_offset(old(self).extents(), j) == offset,
        ensures
            final(self).wf(),
            final(self).granularity() == old(self).granularity(),
            final(self).capacity() == old(self).capacity(),
            ({
                let s = old(self).extents();
                let i = ext_find_used(s, offset as int, 0);
                final(self).extents() =~= ext_merged_at(
                    s.update(i, (true, ext_offset(s, i), ext_size(s, i))),
                    i,
                )
            }),
    {
        let ghost s = self.extents();
        let ghost g = self.granularity();
        if let Some(index) = self.find_used_block(offset) {
            proof {
                lemma_find_used_is_first(s, offset as int, index as int);
            }
            let b = self.blocks[index];
            proof {
                assert(s[index as int] == old(self).blocks@[index as int].view_triple());
            }
            match b {
                Block::Used(d) => {
                    self.blocks[index] = Block::Free(d);
                    proof {
                        let i = index as int;
                        let m = s.update(i, (true, ext_offset(s, i), ext_size(s, i)));
                        assert(self.blocks@ == old(self).blocks@.update(i, Block::Free(d)));
                        assert forall|k: int| 0 <= k < m.len() implies self.extents()[k]
                            == m[k] by {
                            assert(self.extents()[k] == self.blocks@[k].view_triple());
                            if k != i {
                                assert(self.blocks@[k] == old(self).blocks@[k]);
                                assert(s[k] == old(self).blocks@[k].view_triple());
                                assert(m[k] == s[k]);
                            }
                        };
                        assert(self.extents() =~= m);
                        assert(ext_contiguous(m)) by {
                            assert forall|k: int|
                                0 <= k < m.len() - 1 implies ext_offset(m, k + 1) == ext_offset(
                                m,
                                k,
                            ) + #[trigger] ext_size(m, k) by {
                                assert(ext_offset(s, k + 1) == ext_offset(s, k) + ext_size(s, k));
                            };
                            assert forall|k: int|
                                0 <= k < m.len() implies #[trigger] ext_size(m, k) >= 0 by {
                                assert(ext_size(s, k) >= 0);
                            };
                        }
                        assert forall|k: int|
                            0 <= k < m.len() implies #[trigger] ext_size(m, k) % g == 0 by {
                            assert(ext_size(s, k) % g == 0);
                        };
                        assert forall|k: int|
                            0 <= k < m.len() implies #[trigger] ext_offset(m, k) % g == 0 by {
                            assert(ext_offset(s, k) % g == 0);
                        };
                        assert forall|k: int|
                            0 <= k < m.len() - 1 && #[trigger] ext_free(m, k) && ext_free(m, k + 1)
                                implies k == i || k + 1 == i by {
                            if k != i && k + 1 != i {
                                assert(m[k] == s[k] && m[k + 1] == s[k + 1]);
                                assert(!(ext_free(s, k) && ext_free(s, k + 1)));
                            }
                        };
                    }
                    self.merge_free_blocks(index);
                },
                Block::Free(_) => {
                    proof {
                        assert(false);
                    }
                },
            }
        } else {
            proof {
                lemma_find_used_misses(s, offset as int, 0);
                assert(false);
            }
        }
    }

    /// The accounting law of the free-list allocator: at all times the
    /// sizes of its free and used extents sum to the region size.
    pub proof fn lemma_extents_cover_region(self)
        requires
            self.wf(),
        ensures
            ext_total_size(self.extents()) == self.capacity(),
    {
        lemma_total_size_of_contiguous(self.extents());
    }

    /// Merges free extent `index` with whichever of its neighbours are
    /// free, so that no two adjacent free extents persist.
    fn merge_free_blocks(&mut self, index: usize)
        requires
            old(self).granularity() > 0,
            ext_contiguous(old(self).extents()),
            old(self).capacity() <= usize::MAX,
            forall|k: int|
                0 <= k < old(self).extents().len() ==> #[trigger] ext_size(old(self).extents(), k)
                    % old(self).granularity() == 0,
            forall|k: int|
                0 <= k < old(self).extents().len() ==> #[trigger] ext_offset(
                    old(self).extents(),
                    k,
                ) % old(self).granularity() == 0,
            index < old(self).extents().len(),
            ext_free(old(self).extents(), index as int),
            forall|k: int|
                0 <= k < old(self).extents().len() - 1 && #[trigger] ext_free(
                    old(self).extents(),
                    k,
                ) && ext_free(old(self).extents(), k + 1) ==> k == index || k + 1 == index,
        ensures
            final(self).wf(),
            final(self).granularity() == old(self).granularity(),
            final(self).capacity() == old(self).capacity(),
            final(self).extents() =~= ext_merged_at(old(self).extents(), index as int),
    {
        let ghost s0 = old(self).extents();
        let ghost g = old(self).granularity();
        let ghost i = index as int;
        proof {
            vstd::std_specs::vec::axiom_spec_len(&self.blocks);
        }
        if index + 1 < self.blocks.len() {
            let cur = self.blocks[index];
            let next = self.blocks[index + 1];
            proof {
                assert(s0[i] == old(self).blocks@[i].view_triple());
                assert(s0[i + 1] == old(self).blocks@[i + 1].view_triple());
            }
            match (cur, next) {
                (Block::Free(d), Block::Free(nd)) => {
                    proof {
                        lemma_ext_offsets_monotone(s0, 0, i);
                        lemma_ext_within_region(s0, i + 1);
                        assert(ext_offset(s0, i + 1) == ext_offset(s0, i) + ext_size(s0, i));
                    }
                    self.blocks[index] = Block::Free(BlockData(d.0, d.1 + nd.1));
                    self.blocks.remove(index + 1);
                    proof {
                        lemma_fuse_step(s0, i, g);
                        let t = ext_fuse(s0, i);
                        assert(self.blocks@ == old(self).blocks@.update(
                            i,
                            Block::Free(BlockData(d.0, (d.1 + nd.1) as usize)),
                        ).remove(i + 1));
                        old(self).blocks@.update(
                            i,
                            Block::Free(BlockData(d.0, (d.1 + nd.1) as usize)),
                        ).remove_ensures(i + 1);
                        assert forall|k: int| 0 <= k < t.len() implies self.extents()[k]
                            == t[k] by {
                            assert(self.extents()[k] == self.blocks@[k].view_triple());
                            if k < i {
                                assert(self.blocks@[k] == old(self).blocks@[k]);
                                assert(s0[k] == old(self).blocks@[k].view_triple());
                                assert(t[k] == s0[k]);
                            } else if k == i {
                                assert(t[i] == (true, ext_offset(s0, i), ext_size(s0, i)
                                    + ext_size(s0, i + 1)));
                            } else {
                                assert(self.blocks@[k] == old(self).blocks@[k + 1]);
                                assert(s0[k + 1] == old(self).blocks@[k + 1].view_triple());
                                assert(t[k] == s0[k + 1]);
                            }
                        };
                        assert(self.extents() =~= t);
                    }
                },
                _ => {},
            }
        }
        let ghost s1 = self.extents();
        proof {
            if i + 1 < s0.len() && ext_free(s0, i + 1) {
                assert(s1 =~= ext_fuse(s0, i));
            } else {
                assert(s1 =~= s0);
            }
            if i + 1 < s0.len() && ext_free(s0, i + 1) {
                lemma_fuse_step(s0, i, g);
            }
            assert(ext_contiguous(s1));
            assert(ext_free(s1, i)) by {
                if i + 1 < s0.len() && ext_free(s0, i + 1) {
                    assert(s1[i] == ext_fuse(s0, i)[i]);
                }
            }
        }
        if index > 0 {
            let prev = self.blocks[index - 1];
            let cur = self.blocks[index];
            proof {
                assert(s1[i - 1] == self.blocks@[i - 1].view_triple());
                assert(s1[i] == self.blocks@[i].view_triple());
            }
            match (prev, cur) {
                (Block::Free(pd), Block::Free(d)) => {
                    proof {
                        lemma_ext_offsets_monotone(s1, 0, i - 1);
                        lemma_ext_within_region(s1, i);
                        assert(ext_offset(s1, i) == ext_offset(s1, i - 1) + ext_size(s1, i - 1));
                    }
                    let ghost blocks1 = self.blocks@;
                    self.blocks[index - 1] = Block::Free(BlockData(pd.0, pd.1 + d.1));
                    self.blocks.remove(index);
                    proof {
                        lemma_fuse_step(s1, i - 1, g);
                        let t = ext_fuse(s1, i - 1);
                        assert(self.blocks@ == blocks1.update(
                            i - 1,
                            Block::Free(BlockData(pd.0, (pd.1 + d.1) as usize)),
                        ).remove(i));
                        blocks1.update(
                            i - 1,
                            Block::Free(BlockData(pd.0, (pd.1 + d.1) as usize)),
                        ).remove_ensures(i);
                        assert forall|k: int| 0 <= k < t.len() implies self.extents()[k]
                            == t[k] by {
                            assert(self.extents()[k] == self.blocks@[k].view_triple());
                            if k < i - 1 {
                                assert(self.blocks@[k] == blocks1[k]);
                                assert(s1[k] == blocks1[k].view_triple());
                                assert(t[k] == s1[k]);
                            } else if k == i - 1 {
                                assert(t[k] == (true, ext_offset(s1, i - 1), ext_size(s1, i - 1)
                                    + ext_size(s1, i)));
                            } else {
                                assert(self.blocks@[k] == blocks1[k + 1]);
                                assert(s1[k + 1] == blocks1[k + 1].view_triple());
                                assert(t[k] == s1[k + 1]);
                            }
                        };
                        assert(self.extents() =~= t);
                    }
                },
                _ => {},
            }
        }
        proof {
            let t = self.extents();
            assert(t =~= ext_merged_at(s0, i));
            if i > 0 && ext_free(s1, i - 1) {
                lemma_fuse_step(s1, i - 1, g);
            }
            assert(ext_contiguous(t));
            lemma_merged_no_adjacent_free(s0, i, g);
        }
    }

    /// Hands out the front of free extent `index`: the extent becomes
    /// used at the granularity-aligned request size, and the
    /// remainder, if any, stays free right after it.
    fn split_and_insert_block(&mut self, index: usize, size: usize) -> (r: Option<usize>)
        requires
            old(self).wf(),
            index < old(self).extents().len(),
            ext_free(old(self).extents(), index as int),
            spec_align(size as int, old(self).granularity()) <= ext_size(
                old(self).extents(),
                index as int,
            ),
        ensures
            final(self).wf(),
            final(self).granularity() == old(self).granularity(),
            final(self).capacity() == old(self).capacity(),
            r == Some(ext_offset(old(self).extents(), index as int) as usize),
            final(self).extents() =~= ext_split_front(
                old(self).extents(),
                index as int,
                spec_align(size as int, old(self).granularity()),
            ),
    {
        let ghost os = old(self).extents();
        let ghost g = old(self).granularity();
        proof {
            lemma_spec_align_bounds(size as int, g);
            lemma_ext_within_region(os, index as int);
        }
        let size_al = align_usize(size, self.granularity);
        let b = self.blocks[index];
        proof {
            vstd::std_specs::vec::axiom_spec_len(&self.blocks);
            assert(os[index as int] == old(self).blocks@[index as int].view_triple());
        }
        match b {
            Block::Free(d) => {
                let new_size = d.1 - size_al;
                self.blocks[index] = Block::Used(BlockData(d.0, size_al));
                if new_size > 0 {
                    self.blocks.insert(index + 1, Block::Free(BlockData(d.0 + size_al, new_size)));
                }
                proof {
                    let ns = self.extents();
                    let a = size_al as int;
                    let i = index as int;
                    assert(ns =~= ext_split_front(os, i, a)) by {
                        if a < ext_size(os, i) {
                            assert(self.blocks@ == old(self).blocks@.update(
                                i,
                                Block::Used(BlockData(d.0, size_al)),
                            ).insert(i + 1, Block::Free(BlockData((d.0 + size_al) as usize, new_size))));
                            assert forall|k: int| 0 <= k < ns.len() implies ns[k]
                                == ext_split_front(os, i, a)[k] by {
                                assert(ns[k] == self.blocks@[k].view_triple());
                            };
                        } else {
                            assert forall|k: int| 0 <= k < ns.len() implies ns[k]
                                == ext_split_front(os, i, a)[k] by {
                                assert(ns[k] == self.blocks@[k].view_triple());
                            };
                        }
                    }
                    lemma_split_front_wf(os, i, a, g);
                    lemma_split_region_end(os, i, a);
                }
                Some(d.0)
            },
            Block::Used(_) => {
                proof {
                    assert(os[index as int] == old(self).blocks@[index as int].view_triple());
                    assert(false);
                }
                None
            },
        }
    }

    /// Hands out the back of free extent `index`: the tail of the
    /// extent becomes used at the granularity-aligned request size,
    /// and the remainder, if any, stays free right before it.
    fn split_and_insert_block_end(&mut self, index: usize, size: usize) -> (r: Option<usize>)
        requires
            old(self).wf(),
            index < old(self).extents().len(),
            ext_free(old(self).extents(), index as int),
            spec_align(size as int, old(self).granularity()) <= ext_size(
                old(self).extents(),
                index as int,
            ),
        ensures
            final(self).wf(),
            final(self).granularity() == old(self).granularity(),
            final(self).capacity() == old(self).capacity(),
            r == Some(
                (ext_offset(old(self).extents(), index as int) + ext_size(
                    old(self).extents(),
                    index as int,
                ) - spec_align(size as int, old(self).granularity())) as usize,
            ),
            final(self).extents() =~= ext_split_back(
                old(self).extents(),
                index as int,
                spec_align(size as int, old(self).granularity()),
            ),
    {
        let ghost os = old(self).extents();
        let ghost g = old(self).granularity();
        proof {
            lemma_spec_align_bounds(size as int, g);
            lemma_ext_within_region(os, index as int);
        }
        let size_al = align_usize(size, self.granularity);
        let b = self.blocks[index];
        proof {
            assert(os[index as int] == old(self).blocks@[index as int].view_triple());
        }
        match b {
            Block::Free(d) => {
                let split = d.1 - size_al;
                self.blocks[index] = Block::Used(BlockData(d.0 + split, size_al));
                if split > 0 {
                    self.blocks.insert(index, Block::Free(BlockData(d.0, split)));
                }
                proof {
                    let ns = self.extents();
                    let a = size_al as int;
                    let i = index as int;
                    assert(ns =~= ext_split_back(os, i, a)) by {
                        assert forall|k: int| 0 <= k < ns.len() implies ns[k] == ext_split_back(
                            os,
                            i,
                            a,
                        )[k] by {
                            assert(ns[k] == self.blocks@[k].view_triple());
                        };
                    }
                    lemma_split_back_wf(os, i, a, g);
                    lemma_split_back_region_end(os, i, a);
                }
                Some(d.0 + split)
            },
            Block::Used(_) => {
                proof {
                    assert(os[index as int] == old(self).blocks@[index as int].view_triple());
                    assert(false);
                }
                None
            },
        }
    }
}

/// Splitting the front of a free extent preserves contiguity, the
/// granularity invariants, and the absence of adjacent free extents.
#[verifier::rlimit(50)]
proof fn lemma_split_front_wf(s: Seq<(bool, int, int)>, i: int, a: int, g: int)
    requires
        g > 0,
        ext_contiguous(s),
        0 <= i < s.len(),
        ext_free(s, i),
        0 <= a <= ext_size(s, i),
        a % g == 0,
        forall|k: int| 0 <= k < s.len() ==> #[trigger] ext_size(s, k) % g == 0,
        forall|k: int| 0 <= k < s.len() ==> #[trigger] ext_offset(s, k) % g == 0,
        forall|k: int| 0 <= k < s.len() - 1 ==> !(#[trigger] ext_free(s, k) && ext_free(s, k + 1)),
    ensures
        ({
            let t = ext_split_front(s, i, a);
            &&& ext_contiguous(t)
            &&& forall|k: int| 0 <= k < t.len() ==> #[trigger] ext_size(t, k) % g == 0
            &&& forall|k: int| 0 <= k < t.len() ==> #[trigger] ext_offset(t, k) % g == 0
            &&& forall|k: int|
                0 <= k < t.len() - 1 ==> !(#[trigger] ext_free(t, k) && ext_free(t, k + 1))
        }),
{
    let t = ext_split_front(s, i, a);
    let off = ext_offset(s, i);
    let sz = ext_size(s, i);
    vstd::arithmetic::div_mod::lemma_add_mod_noop(off, a, g);
    vstd::arithmetic::div_mod::lemma_sub_mod_noop(sz, a, g);
    if a < sz {
        assert(t.len() == s.len() + 1);
        let u = s.update(i, (false, off, a));
        let v = (true, off + a, sz - a);
        u.insert_ensures(i + 1, v);
        assert(t == u.insert(i + 1, v));
        assert forall|k: int| 0 <= k <= i implies t[k] == u[k] by {
            assert(u.insert(i + 1, v)[k] == u[k]);
        };
        assert(t[i + 1] == v) by {
            assert(u.insert(i + 1, v)[i + 1] == v);
        };
        assert forall|k: int| i + 1 <= k < u.len() implies t[k + 1] == u[k] by {
            assert(u.insert(i + 1, v)[k + 1] == u[k]);
        };
        assert(ext_contiguous(t)) by {
            assert(t[0] == (if i == 0 {
                (false, off, a)
            } else {
                s[0]
            }));
            assert forall|k: int|
                0 <= k < t.len() - 1 implies ext_offset(t, k + 1) == ext_offset(t, k)
                + #[trigger] ext_size(t, k) by {
                if k < i - 1 {
                    assert(t[k] == s[k] && t[k + 1] == s[k + 1]);
                    assert(ext_offset(s, k + 1) == ext_offset(s, k) + ext_size(s, k));
                } else if k == i - 1 {
                    assert(t[k] == s[k] && t[k + 1] == (false, off, a));
                    assert(ext_offset(s, k + 1) == ext_offset(s, k) + ext_size(s, k));
                } else if k == i {
                    assert(t[k] == (false, off, a) && t[k + 1] == (true, off + a, sz - a));
                } else if k == i + 1 {
                    assert(t[k] == (true, off + a, sz - a) && t[k + 1] == s[k]);
                    assert(ext_offset(s, i + 1) == ext_offset(s, i) + ext_size(s, i));
                } else {
                    assert(t[k] == s[k - 1] && t[k + 1] == s[k]);
                    assert(ext_offset(s, k) == ext_offset(s, k - 1) + ext_size(s, k - 1));
                }
            };
            assert forall|k: int| 0 <= k < t.len() implies #[trigger] ext_size(t, k) >= 0 by {
                if k < i {
                    assert(t[k] == s[k]);
                    assert(ext_size(s, k) >= 0);
                } else if k > i + 1 {
                    assert(t[k] == s[k - 1]);
                    assert(ext_size(s, k - 1) >= 0);
                }
            };
        }
        assert forall|k: int| 0 <= k < t.len() implies #[trigger] ext_size(t, k) % g == 0 by {
            if k < i {
                assert(t[k] == s[k]);
                assert(ext_size(s, k) % g == 0);
            } else if k > i + 1 {
                assert(t[k] == s[k - 1]);
                assert(ext_size(s, k - 1) % g == 0);
            }
        };
        assert forall|k: int| 0 <= k < t.len() implies #[trigger] ext_offset(t, k) % g == 0 by {
            if k < i {
                assert(t[k] == s[k]);
                assert(ext_offset(s, k) % g == 0);
            } else if k > i + 1 {
                assert(t[k] == s[k - 1]);
                assert(ext_offset(s, k - 1) % g == 0);
            } else {
                assert(ext_offset(s, i) % g == 0);
            }
        };
        assert forall|k: int|
            0 <= k < t.len() - 1 implies !(#[trigger] ext_free(t, k) && ext_free(t, k + 1)) by {
            if k < i - 1 {
                assert(t[k] == s[k] && t[k + 1] == s[k + 1]);
                assert(!(ext_free(s, k) && ext_free(s, k + 1)));
            } else if k == i - 1 {
                assert(t[k + 1] == (false, off, a));
            } else if k == i {
                assert(t[k] == (false, off, a));
            } else if k == i + 1 {
                assert(t[k] == (true, off + a, sz - a) && t[k + 1] == s[k]);
                assert(!(ext_free(s, i) && ext_free(s, i + 1)));
            } else {
                assert(t[k] == s[k - 1] && t[k + 1] == s[k]);
                assert(!(ext_free(s, k - 1) && ext_free(s, k)));
            }
        };
    } else {
        assert(a == sz);
        let w = (false, off, a);
        assert(t == s.update(i, w));
        assert(t.len() == s.len());
        assert forall|k: int| 0 <= k < t.len() && k != i implies t[k] == s[k] by {
            assert(s.update(i, w)[k] == s[k]);
        };
        assert(t[i] == w) by {
            assert(s.update(i, w)[i] == w);
        };
        assert(ext_contiguous(t)) by {
            assert forall|k: int|
                0 <= k < t.len() - 1 implies ext_offset(t, k + 1) == ext_offset(t, k)
                + #[trigger] ext_size(t, k) by {
                assert(ext_offset(s, k + 1) == ext_offset(s, k) + ext_size(s, k));
            };
            assert forall|k: int| 0 <= k < t.len() implies #[trigger] ext_size(t, k) >= 0 by {
                assert(ext_size(s, k) >= 0);
            };
        }
        assert forall|k: int| 0 <= k < t.len() implies #[trigger] ext_size(t, k) % g == 0 by {
            assert(ext_size(s, k) % g == 0);
        };
        assert forall|k: int| 0 <= k < t.len() implies #[trigger] ext_offset(t, k) % g == 0 by {
            assert(ext_offset(s, k) % g == 0);
        };
        assert forall|k: int|
            0 <= k < t.len() - 1 implies !(#[trigger] ext_free(t, k) && ext_free(t, k + 1)) by {
            assert(!(ext_free(s, k) && ext_free(s, k + 1)));
        };
    }
}

/// Splitting the front of an extent leaves the region end unchanged.
proof fn lemma_split_region_end(s: Seq<(bool, int, int)>, i: int, a: int)
    requires
        ext_contiguous(s),
        0 <= i < s.len(),
        0 <= a <= ext_size(s, i),
    ensures
        ({
            let t = ext_split_front(s, i, a);
            ext_offset(t, t.len() - 1) + ext_size(t, t.len() - 1) == ext_offset(s, s.len() - 1)
                + ext_size(s, s.len() - 1)
        }),
{
    let t = ext_split_front(s, i, a);
    if a < ext_size(s, i) {
        let u = s.update(i, (false, ext_offset(s, i), a));
        let v = (true, ext_offset(s, i) + a, ext_size(s, i) - a);
        u.insert_ensures(i + 1, v);
        assert(t == u.insert(i + 1, v));
        assert(t[i + 1] == v) by {
            assert(u.insert(i + 1, v)[i + 1] == v);
        };
        assert forall|k: int| i + 1 <= k < u.len() implies t[k + 1] == u[k] by {
            assert(u.insert(i + 1, v)[k + 1] == u[k]);
        };
        if i == s.len() - 1 {
            assert(t.last() == (true, ext_offset(s, i) + a, ext_size(s, i) - a));
        } else {
            assert(t.last() == s.last());
        }
    } else {
        if i == s.len() - 1 {
            assert(t.last() == (false, ext_offset(s, i), a));
        } else {
            assert(t.last() == s.last());
        }
    }
}

/// Splitting the back of a free extent preserves contiguity, the
/// granularity invariants, and the absence of adjacent free extents.
#[verifier::rlimit(100)]
proof fn lemma_split_back_wf(s: Seq<(bool, int, int)>, i: int, a: int, g: int)
    requires
        g > 0,
        ext_contiguous(s),
        0 <= i < s.len(),
        ext_free(s, i),
        0 <= a <= ext_size(s, i),
        a % g == 0,
        forall|k: int| 0 <= k < s.len() ==> #[trigger] ext_size(s, k) % g == 0,
        forall|k: int| 0 <= k < s.len() ==> #[trigger] ext_offset(s, k) % g == 0,
        forall|k: int| 0 <= k < s.len() - 1 ==> !(#[trigger] ext_free(s, k) && ext_free(s, k + 1)),
    ensures
        ({
            let t = ext_split_back(s, i, a);
            &&& ext_contiguous(t)
            &&& forall|k: int| 0 <= k < t.len() ==> #[trigger] ext_size(t, k) % g == 0
            &&& forall|k: int| 0 <= k < t.len() ==> #[trigger] ext_offset(t, k) % g == 0
            &&& forall|k: int|
                0 <= k < t.len() - 1 ==> !(#[trigger] ext_free(t, k) && ext_free(t, k + 1))
        }),
{
    let t = ext_split_back(s, i, a);
    let off = ext_offset(s, i);
    let sz = ext_size(s, i);
    vstd::arithmetic::div_mod::lemma_sub_mod_noop(sz, a, g);
    vstd::arithmetic::div_mod::lemma_add_mod_noop(off, sz - a, g);
    if a < sz {
        assert(t.len() == s.len() + 1);
        let u = s.update(i, (false, off + (sz - a), a));
        let v = (true, off, sz - a);
        u.insert_ensures(i, v);
        assert(t == u.insert(i, v));
        assert forall|k: int| 0 <= k < i implies t[k] == u[k] by {
            assert(u.insert(i, v)[k] == u[k]);
        };
        assert(t[i] == v) by {
            assert(u.insert(i, v)[i] == v);
        };
        assert forall|k: int| i <= k < u.len() implies t[k + 1] == u[k] by {
            assert(u.insert(i, v)[k + 1] == u[k]);
        };
        assert(ext_contiguous(t)) by {
            assert(t[0] == (if i == 0 {
                (true, off, sz - a)
            } else {
                s[0]
            }));
            assert forall|k: int|
                0 <= k < t.len() - 1 implies ext_offset(t, k + 1) == ext_offset(t, k)
                + #[trigger] ext_size(t, k) by {
                if k < i - 1 {
                    assert(t[k] == s[k] && t[k + 1] == s[k + 1]);
                    assert(ext_offset(s, k + 1) == ext_offset(s, k) + ext_size(s, k));
                } else if k == i - 1 {
                    assert(t[k] == s[k] && t[k + 1] == (true, off, sz - a));
                    assert(ext_offset(s, k + 1) == ext_offset(s, k) + ext_size(s, k));
                } else if k == i {
                    assert(t[k] == (true, off, sz - a) && t[k + 1] == (false, off + (sz - a), a));
                } else if k == i + 1 {
                    assert(t[k] == (false, off + (sz - a), a) && t[k + 1] == s[k]);
                    assert(ext_offset(s, i + 1) == ext_offset(s, i) + ext_size(s, i));
                } else {
                    assert(t[k] == s[k - 1] && t[k + 1] == s[k]);
                    assert(ext_offset(s, k) == ext_offset(s, k - 1) + ext_size(s, k - 1));
                }
            };
            assert forall|k: int| 0 <= k < t.len() implies #[trigger] ext_size(t, k) >= 0 by {
                if k < i {
                    assert(t[k] == s[k]);
                    assert(ext_size(s, k) >= 0);
                } else if k > i + 1 {
                    assert(t[k] == s[k - 1]);
                    assert(ext_size(s, k - 1) >= 0);
                }
            };
        }
        assert forall|k: int| 0 <= k < t.len() implies #[trigger] ext_size(t, k) % g == 0 by {
            if k < i {
                assert(t[k] == s[k]);
                assert(ext_size(s, k) % g == 0);
            } else if k > i + 1 {
                assert(t[k] == s[k - 1]);
                assert(ext_size(s, k - 1) % g == 0);
            }
        };
        assert forall|k: int| 0 <= k < t.len() implies #[trigger] ext_offset(t, k) % g == 0 by {
            if k < i {
                assert(t[k] == s[k]);
                assert(ext_offset(s, k) % g == 0);
            } else if k > i + 1 {
                assert(t[k] == s[k - 1]);
                assert(ext_offset(s, k - 1) % g == 0);
            } else {
                assert(ext_offset(s, i) % g == 0);
            }
        };
        assert forall|k: int|
            0 <= k < t.len() - 1 implies !(#[trigger] ext_free(t, k) && ext_free(t, k + 1)) by {
            if k < i - 1 {
                assert(t[k] == s[k] && t[k + 1] == s[k + 1]);
                assert(!(ext_free(s, k) && ext_free(s, k + 1)));
            } else if k == i - 1 {
                assert(t[k] == s[k] && t[k + 1] == (true, off, sz - a));
                assert(!(ext_free(s, i - 1) && ext_free(s, i)));
            } else if k == i {
                assert(t[k + 1] == (false, off + (sz - a), a));
            } else if k == i + 1 {
                assert(t[k] == (false, off + (sz - a), a));
            } else {
                assert(t[k] == s[k - 1] && t[k + 1] == s[k]);
                assert(!(ext_free(s, k - 1) && ext_free(s, k)));
            }
        };
    } else {
        assert(a == sz);
        let w = (false, off + (sz - a), a);
        assert(t == s.update(i, w));
        assert(t.len() == s.len());
        assert forall|k: int| 0 <= k < t.len() && k != i implies t[k] == s[k] by {
            assert(s.update(i, w)[k] == s[k]);
        };
        assert(t[i] == w) by {
            assert(s.update(i, w)[i] == w);
        };
        assert(ext_contiguous(t)) by {
            assert forall|k: int|
                0 <= k < t.len() - 1 implies ext_offset(t, k + 1) == ext_offset(t, k)
                + #[trigger] ext_size(t, k) by {
                assert(ext_offset(s, k + 1) == ext_offset(s, k) + ext_size(s, k));
            };
            assert forall|k: int| 0 <= k < t.len() implies #[trigger] ext_size(t, k) >= 0 by {
                assert(ext_size(s, k) >= 0);
            };
        }
        assert forall|k: int| 0 <= k < t.len() implies #[trigger] ext_size(t, k) % g == 0 by {
            assert(ext_size(s, k) % g == 0);
        };
        assert forall|k: int| 0 <= k < t.len() implies #[trigger] ext_offset(t, k) % g == 0 by {
            assert(ext_offset(s, k) % g == 0);
        };
        assert forall|k: int|
            0 <= k < t.len() - 1 implies !(#[trigger] ext_free(t, k) && ext_free(t, k + 1)) by {
            assert(!(ext_free(s, k) && ext_free(s, k + 1)));
        };
    }
}

/// Splitting the back of an extent leaves the region end unchanged.
proof fn lemma_split_back_region_end(s: Seq<(bool, int, int)>, i: int, a: int)
    requires
        ext_contiguous(s),
        0 <= i < s.len(),
        0 <= a <= ext_size(s, i),
    ensures
        ({
            let t = ext_split_back(s, i, a);
            ext_offset(t, t.len() - 1) + ext_size(t, t.len() - 1) == ext_offset(s, s.len() - 1)
                + ext_size(s, s.len() - 1)
        }),
{
    let t = ext_split_back(s, i, a);
    if a < ext_size(s, i) {
        let u = s.update(i, (false, ext_offset(s, i) + (ext_size(s, i) - a), a));
        let v = (true, ext_offset(s, i), ext_size(s, i) - a);
        u.insert_ensures(i, v);
        assert(t == u.insert(i, v));
        assert forall|k: int| i <= k < u.len() implies t[k + 1] == u[k] by {
            assert(u.insert(i, v)[k + 1] == u[k]);
        };
        if i == s.len() - 1 {
            assert(t.last() == (false, ext_offset(s, i) + (ext_size(s, i) - a), a));
        } else {
            assert(t.last() == s.last());
        }
    } else {
        if i == s.len() - 1 {
            assert(t.last() == (false, ext_offset(s, i) + (ext_size(s, i) - a), a));
        } else {
            assert(t.last() == s.last());
        }
    }
}

/// A fitting free extent with none before it is what
/// `ext_first_fit` finds.
proof fn lemma_first_fit_is_first(s: Seq<(bool, int, int)>, need: int, i: int)
    requires
        0 <= i < s.len(),
        ext_free(s, i),
        ext_size(s, i) >= need,
        forall|j: int| 0 <= j < i ==> !(ext_free(s, j) && ext_size(s, j) >= need),
    ensures
        ext_first_fit(s, need, 0) == i,
{
    lemma_first_fit_from(s, need, 0, i);
}

/// `ext_first_fit` starting anywhere at or before a first fit lands
/// on it.
proof fn lemma_first_fit_from(s: Seq<(bool, int, int)>, need: int, b: int, i: int)
    requires
        0 <= b <= i < s.len(),
        ext_free(s, i),
        ext_size(s, i) >= need,
        forall|j: int| b <= j < i ==> !(ext_free(s, j) && ext_size(s, j) >= need),
    ensures
        ext_first_fit(s, need, b) == i,
    decreases i - b,
{
    if b < i {
        lemma_first_fit_from(s, need, b + 1, i);
    }
}

/// When no free extent fits, `ext_first_fit` reports the extent
/// count.
proof fn lemma_first_fit_misses(s: Seq<(bool, int, int)>, need: int, b: int)
    requires
        b >= 0,
        forall|j: int| 0 <= j < s.len() ==> !(ext_free(s, j) && ext_size(s, j) >= need),
    ensures
        ext_first_fit(s, need, b) == s.len(),
    decreases s.len() - b,
{
    if b < s.len() {
        lemma_first_fit_misses(s, need, b + 1);
    }
}

/// A fitting free extent with none after it is what `ext_last_fit`
/// finds.
proof fn lemma_last_fit_is_last(s: Seq<(bool, int, int)>, need: int, i: int)
    requires
        0 <= i < s.len(),
        ext_free(s, i),
        ext_size(s, i) >= need,
        forall|j: int| i < j < s.len() ==> !(ext_free(s, j) && ext_size(s, j) >= need),
    ensures
        ext_last_fit(s, need, s.len() - 1) == i,
{
    lemma_last_fit_from(s, need, s.len() - 1, i);
}

/// `ext_last_fit` starting anywhere at or after a last fit lands on
/// it.
proof fn lemma_last_fit_from(s: Seq<(bool, int, int)>, need: int, b: int, i: int)
    requires
        0 <= i <= b < s.len(),
        ext_free(s, i),
        ext_size(s, i) >= need,
        forall|j: int| i < j <= b ==> !(ext_free(s, j) && ext_size(s, j) >= need),
    ensures
        ext_last_fit(s, need, b) == i,
    decreases b - i,
{
    if i < b {
        lemma_last_fit_from(s, need, b - 1, i);
    }
}

/// When no free extent fits, `ext_last_fit` reports the extent count.
proof fn lemma_last_fit_misses(s: Seq<(bool, int, int)>, need: int, b: int)
    requires
        b < s.len(),
        forall|j: int| 0 <= j < s.len() ==> !(ext_free(s, j) && ext_size(s, j) >= need),
    ensures
        ext_last_fit(s, need, b) == s.len(),
    decreases b + 1,
{
    if b >= 0 {
        lemma_last_fit_misses(s, need, b - 1);
    }
}

/// A used extent at the offset with none before it is what
/// `ext_find_used` finds.
proof fn lemma_find_used_is_first(s: Seq<(bool, int, int)>, offset: int, i: int)
    requires
        0 <= i < s.len(),
        !ext_free(s, i),
        ext_offset(s, i) == offset,
        forall|j: int| 0 <= j < i ==> !(!ext_free(s, j) && ext_offset(s, j) == offset),
    ensures
        ext_find_used(s, offset, 0) == i,
{
    lemma_find_used_from(s, offset, 0, i);
}

/// `ext_find_used` starting anywhere at or before the first match
/// lands on it.
proof fn lemma_find_used_from(s: Seq<(bool, int, int)>, offset: int, b: int, i: int)
    requires
        0 <= b <= i < s.len(),
        !ext_free(s, i),
        ext_offset(s, i) == offset,
        forall|j: int| b <= j < i ==> !(!ext_free(s, j) && ext_offset(s, j) == offset),
    ensures
        ext_find_used(s, offset, b) == i,
    decreases i - b,
{
    if b < i {
        lemma_find_used_from(s, offset, b + 1, i);
    }
}

/// When no used extent starts at the offset, `ext_find_used` reports
/// the extent count.
proof fn lemma_find_used_misses(s: Seq<(bool, int, int)>, offset: int, b: int)
    requires
        b >= 0,
        forall|j: int| 0 <= j < s.len() ==> !(!ext_free(s, j) && ext_offset(s, j) == offset),
    ensures
        ext_find_used(s, offset, b) == s.len(),
    decreases s.len() - b,
{
    if b < s.len() {
        lemma_find_used_misses(s, offset, b + 1);
    }
}

/// A monotonic cursor over a fixed-size region; resettable to zero as
/// a unit, with no per-allocation free.
#[derive(Debug)]
pub struct BumpAllocator {
    size: usize,
    top: usize,
    alignment: usize,
}

impl BumpAllocator {
    /// Region size the allocator was created with.
    pub closed spec fn capacity(self) -> int {
        self.size as int
    }

    /// Alignment every returned offset respects.
    pub closed spec fn alignment(self) -> int {
        self.alignment as int
    }

    /// Current top of the region: the next allocation starts at its
    /// aligned position.
    pub closed spec fn top(self) -> int {
        self.top as int
    }

    /// The cursor stays inside the region and the alignment is usable.
    pub closed spec fn wf(self) -> bool {
        &&& self.alignment > 0
        &&& self.size + self.alignment <= usize::MAX
        &&& self.top <= self.size
    }

    /// The offset `allocate(size)` returns on this allocator state, or
    /// `None` when the aligned cursor would overrun the region.
    pub open spec fn spec_allocate(self, size: int) -> Option<int> {
        let base = spec_align(self.top(), self.alignment());
        if base + size > self.capacity() {
            None
        } else {
            Some(base)
        }
    }

    /// A fresh allocator over `size` bytes, starting at the bottom.
    pub fn new(size: usize, alignment: usize) -> (r: Self)
        requires
            alignment > 0,
            size + alignment <= usize::MAX,
        ensures
            r.wf(),
            r.capacity() == size,
            r.alignment() == alignment,
            r.top() == 0,
    {
        Self { size, alignment, top: 0 }
    }

    /// Aligns the current top and claims `size` bytes there, or
    /// reports exhaustion without changing anything.
    pub fn allocate(&mut self, size: usize) -> (r: Option<usize>)
        requires
            old(self).wf(),
        ensures
            final(self).wf(),
            final(self).capacity() == old(self).capacity(),
            final(self).alignment() == old(self).alignment(),
            match r {
                Some(offset) => {
                    &&& Some(offset as int) == old(self).spec_allocate(size as int)
                    &&& offset == spec_align(old(self).top(), old(self).alignment())
                    &&& (offset as int) % old(self).alignment() == 0
                    &&& offset + size <= old(self).capacity()
                    &&& final(self).top() == offset + size
                },
                None => {
                    &&& old(self).spec_allocate(size as int) is None
                    &&& final(self).top() == old(self).top()
                },
            },
    {
        proof {
            lemma_spec_align_bounds(self.top as int, self.alignment as int);
        }
        let base = align_usize(self.top, self.alignment);
        if base > self.size || size > self.size - base {
            None
        } else {
            self.top = base + size;
            Some(base)
        }
    }

    /// Rewinds the cursor to the bottom of the region; the only form
    /// of reclamation a bump allocator has.
    pub fn reset(&mut self)
        requires
            old(self).wf(),
        ensures
            final(self).wf(),
            final(self).capacity() == old(self).capacity(),
            final(self).alignment() == old(self).alignment(),
            final(self).top() == 0,
    {
        self.top = 0;
    }
}

/// A monotonic cursor that wraps to zero when an allocation would
/// exceed capacity. There is no reclamation tracking: the caller must
/// guarantee that wrapped-over regions are no longer in use, which the
/// frame-pipelining design enforces from outside.
pub struct RingAllocator {
    size: usize,
    alignment: usize,
    head: usize,
}

impl RingAllocator {
    /// Region size the allocator was created with.
    pub closed spec fn capacity(self) -> int {
        self.size as int
    }

    /// Granularity the cursor advances by.
    pub closed spec fn alignment(self) -> int {
        self.alignment as int
    }

    /// Current cursor: where the next allocation starts if it fits.
    pub closed spec fn head(self) -> int {
        self.head as int
    }

    /// The alignment is usable and the cursor cannot leave the region
    /// by more than one aligned request.
    pub closed spec fn wf(self) -> bool {
        &&& self.alignment > 0
        &&& self.size + self.alignment <= usize::MAX
        &&& self.head <= spec_align(self.size as int, self.alignment as int)
    }

    /// A fresh ring over `size` bytes with its cursor at zero.
    pub fn new(size: usize, alignment: usize) -> (r: Self)
        requires
            alignment > 0,
            size + alignment <= usize::MAX,
        ensures
            r.wf(),
            r.capacity() == size,
            r.alignment() == alignment,
            r.head() == 0,
    {
        Self { head: 0, size, alignment }
    }

    /// Claims `size` bytes at the cursor, advancing it by the aligned
    /// size, or wraps to the bottom of the region when the request
    /// would run past the end.
    pub fn allocate(&mut self, size: usize) -> (r: usize)
        requires
            old(self).wf(),
            size <= old(self).capacity(),
        ensures
            final(self).wf(),
            final(self).capacity() == old(self).capacity(),
            final(self).alignment() == old(self).alignment(),
            ({
                let aligned = spec_align(size as int, old(self).alignment());
                if old(self).head() + aligned > old(self).capacity() {
                    r == 0 && final(self).head() == aligned
                } else {
                    r == old(self).head() && final(self).head() == old(self).head() + aligned
                }
            }),
    {
        proof {
            lemma_spec_align_bounds(size as int, self.alignment as int);
            lemma_spec_align_bounds(self.size as int, self.alignment as int);
            crate::lemma_spec_align_is_least(
                size as int,
                self.alignment as int,
                spec_align(self.size as int, self.alignment as int),
            );
        }
        let aligned_size = align_usize(size, self.alignment);
        let old_head = self.head;
        if old_head <= self.size && aligned_size <= self.size - old_head {
            self.head = old_head + aligned_size;
            old_head
        } else {
            self.head = aligned_size;
            0
        }
    }
}

/// A fixed-stride block allocator: a region divided into equally sized
/// chunks handed out and taken back through a stack of free chunk
/// indices.
#[derive(Debug)]
pub struct BlockAllocator {
    chunk_size: usize,
    chunk_count: usize,
    empty: Vec<usize>,
}

impl BlockAllocator {
    /// Size of every chunk.
    pub closed spec fn chunk_size(self) -> int {
        self.chunk_size as int
    }

    /// Number of chunks in the region.
    pub closed spec fn chunk_count(self) -> int {
        self.chunk_count as int
    }

    /// The stack of free chunk indices; `allocate` pops its top.
    pub closed spec fn free_chunks(self) -> Seq<usize> {
        self.empty@
    }

    /// Whether the chunk holding `offset` is currently allocated.
    pub open spec fn offset_allocated(self, offset: int) -> bool {
        &&& 0 <= offset
        &&& offset % self.chunk_size() == 0
        &&& offset / self.chunk_size() < self.chunk_count()
        &&& !self.free_chunks().contains((offset / self.chunk_size()) as usize)
    }

    /// The stride is usable, offsets fit the machine word, and the
    /// free stack holds distinct in-range chunk indices.
    pub closed spec fn wf(self) -> bool {
        &&& self.chunk_size > 0
        &&& self.chunk_size * self.chunk_count <= usize::MAX
        &&& forall|j: int|
            0 <= j < self.empty@.len() ==> (#[trigger] self.empty@[j]) < self.chunk_count
        &&& forall|j: int, k: int|
            0 <= j < k < self.empty@.len() ==> (#[trigger] self.empty@[j]) != (
            #[trigger] self.empty@[k])
    }

    /// A fresh allocator with every chunk free; chunks are handed out
    /// lowest offset first.
    pub fn new(chunk_size: usize, chunk_count: usize) -> (r: Self)
        requires
            chunk_size > 0,
            chunk_size * chunk_count <= usize::MAX,
        ensures
            r.wf(),
            r.chunk_size() == chunk_size,
            r.chunk_count() == chunk_count,
            r.free_chunks().len() == chunk_count,
            forall|j: int|
                0 <= j < chunk_count ==> #[trigger] r.free_chunks()[j] == chunk_count - 1 - j,
    {
        let mut empty: Vec<usize> = Vec::new();
        let mut remaining = chunk_count;
        while remaining > 0
            invariant
                remaining <= chunk_count,
                empty@.len() == chunk_count - remaining,
                forall|j: int|
                    0 <= j < empty@.len() ==> #[trigger] empty@[j] == chunk_count - 1 - j,
            decreases remaining,
        {
            remaining -= 1;
            empty.push(remaining);
        }
        Self { chunk_size, chunk_count, empty }
    }

    /// Pops a free chunk and returns its byte offset, or `None` when
    /// every chunk is handed out.
    pub fn allocate(&mut self) -> (r: Option<usize>)
        requires
            old(self).wf(),
        ensures
            final(self).wf(),
            final(self).chunk_size() == old(self).chunk_size(),
            final(self).chunk_count() == old(self).chunk_count(),
            match r {
                Some(offset) => {
                    &&& old(self).free_chunks().len() > 0
                    &&& offset == old(self).free_chunks().last() * old(self).chunk_size()
                    &&& final(self).free_chunks() == old(self).free_chunks().drop_last()
                    &&& final(self).offset_allocated(offset as int)
                    &&& offset + old(self).chunk_size() <= old(self).chunk_size() * old(
                        self,
                    ).chunk_count()
                },
                None => {
                    &&& old(self).free_chunks().len() == 0
                    &&& final(self).free_chunks() == old(self).free_chunks()
                },
            },
    {
        if let Some(slot) = self.empty.pop() {
            proof {
                let os = old(self).empty@;
                assert(os.last() == slot);
                assert forall|j: int| 0 <= j < self.empty@.len() implies (#[trigger] self.empty@[j])
                    != slot by {
                    assert(self.empty@[j] == os[j]);
                };
                if self.empty@.contains(slot) {
                    let j = choose|j: int| 0 <= j < self.empty@.len() && self.empty@[j] == slot;
                    assert(false);
                }
                assert(slot * self.chunk_size + self.chunk_size <= self.chunk_size
                    * self.chunk_count) by (nonlinear_arith)
                    requires
                        (slot as int) < self.chunk_count as int,
                        self.chunk_size > 0,
                ;
                assert((slot * self.chunk_size) as int % self.chunk_size as int == 0
                    && (slot * self.chunk_size) as int / self.chunk_size as int
                    == slot as int) by (nonlinear_arith)
                    requires
                        self.chunk_size > 0,
                ;
            }
            Some(slot * self.chunk_size)
        } else {
            None
        }
    }

    /// The free stack holds at most one entry per chunk, so it can
    /// never exceed the chunk count, and a live chunk means the stack
    /// is short of full.
    pub proof fn lemma_free_chunks_bounded(self, live_offset: int)
        requires
            self.wf(),
        ensures
            self.free_chunks().len() <= self.chunk_count(),
            self.offset_allocated(live_offset) ==> self.free_chunks().len() < self.chunk_count(),
    {
        broadcast use vstd::set::group_set_axioms;

        let cc = self.chunk_count();
        let m = self.free_chunks().map_values(|u: usize| u as int);
        assert(m.len() == self.free_chunks().len());
        assert(m.no_duplicates()) by {
            assert forall|j: int, k: int|
                0 <= j < m.len() && 0 <= k < m.len() && j != k implies m[j] != m[k] by {
                assert(m[j] == self.free_chunks()[j] as int);
                assert(m[k] == self.free_chunks()[k] as int);
            };
        }
        m.unique_seq_to_set();
        vstd::set_lib::lemma_int_range(0, cc);
        assert(m.to_set().subset_of(vstd::set_lib::set_int_range(0, cc))) by {
            assert forall|x: int| m.to_set().contains(x) implies vstd::set_lib::set_int_range(
                0,
                cc,
            ).contains(x) by {
                let k = choose|k: int| 0 <= k < m.len() && m[k] == x;
                assert(self.free_chunks()[k] < self.chunk_count);
            };
        }
        vstd::set_lib::lemma_len_subset(m.to_set(), vstd::set_lib::set_int_range(0, cc));
        if self.offset_allocated(live_offset) {
            let c = live_offset / self.chunk_size();
            let small = vstd::set_lib::set_int_range(0, cc).remove(c);
            assert(vstd::set_lib::set_int_range(0, cc).contains(c));
            assert(small.len() == cc - 1);
            assert(m.to_set().subset_of(small)) by {
                assert forall|x: int| m.to_set().contains(x) implies small.contains(x) by {
                    let k = choose|k: int| 0 <= k < m.len() && m[k] == x;
                    assert(self.free_chunks()[k] < self.chunk_count);
                    if x == c {
                        assert(self.free_chunks().contains((live_offset
                            / self.chunk_size()) as usize)) by {
                            assert(self.free_chunks()[k] == (live_offset
                                / self.chunk_size()) as usize);
                        }
                    }
                };
            }
            vstd::set_lib::lemma_len_subset(m.to_set(), small);
        }
    }

    /// Two distinct live chunks leave the free stack at least two
    /// short of full.
    pub proof fn lemma_free_chunks_bounded_two(self, o1: int, o2: int)
        requires
            self.wf(),
            self.offset_allocated(o1),
            self.offset_allocated(o2),
            o1 / self.chunk_size() != o2 / self.chunk_size(),
        ensures
            self.free_chunks().len() <= self.chunk_count() - 2,
    {
        broadcast use vstd::set::group_set_axioms;

        let cc = self.chunk_count();
        let c1 = o1 / self.chunk_size();
        let c2 = o2 / self.chunk_size();
        let m = self.free_chunks().map_values(|u: usize| u as int);
        assert(m.len() == self.free_chunks().len());
        assert(m.no_duplicates()) by {
            assert forall|j: int, k: int|
                0 <= j < m.len() && 0 <= k < m.len() && j != k implies m[j] != m[k] by {
                assert(m[j] == self.free_chunks()[j] as int);
                assert(m[k] == self.free_chunks()[k] as int);
            };
        }
        m.unique_seq_to_set();
        vstd::set_lib::lemma_int_range(0, cc);
        let small = vstd::set_lib::set_int_range(0, cc).remove(c1).remove(c2);
        assert(vstd::set_lib::set_int_range(0, cc).contains(c1));
        assert(vstd::set_lib::set_int_range(0, cc).remove(c1).contains(c2));
        assert(small.len() == cc - 2);
        assert(m.to_set().subset_of(small)) by {
            assert forall|x: int| m.to_set().contains(x) implies small.contains(x) by {
                let k = choose|k: int| 0 <= k < m.len() && m[k] == x;
                assert(self.free_chunks()[k] < self.chunk_count);
                if x == c1 {
                    assert(self.free_chunks().contains((o1 / self.chunk_size()) as usize)) by {
                        assert(self.free_chunks()[k] == (o1 / self.chunk_size()) as usize);
                    }
                }
                if x == c2 {
                    assert(self.free_chunks().contains((o2 / self.chunk_size()) as usize)) by {
                        assert(self.free_chunks()[k] == (o2 / self.chunk_size()) as usize);
                    }
                }
            };
        }
        vstd::set_lib::lemma_len_subset(m.to_set(), small);
    }

    /// Returns the chunk holding `offset` to the free stack. The
    /// offset must be one this allocator handed out and not yet
    /// returned: freeing a free chunk is the caller's protocol error.
    pub fn dealloc(&mut self, offset: usize)
        requires
            old(self).wf(),
            old(self).offset_allocated(offset as int),
        ensures
            final(self).wf(),
            final(self).chunk_size() == old(self).chunk_size(),
            final(self).chunk_count() == old(self).chunk_count(),
            final(self).free_chunks() == old(self).free_chunks().push(
                ((offset as int) / old(self).chunk_size()) as usize,
            ),
            !final(self).offset_allocated(offset as int),
    {
        let index = offset / self.chunk_size;
        self.empty.push(index);
        proof {
            let ns = self.empty@;
            let os = old(self).empty@;
            assert(ns == os.push(index));
            assert forall|j: int, k: int| 0 <= j < k < ns.len() implies (#[trigger] ns[j]) != (
            #[trigger] ns[k]) by {
                if k == ns.len() - 1 {
                    assert(ns[j] == os[j]);
                    assert(os.contains(os[j]));
                } else {
                    assert(ns[j] == os[j] && ns[k] == os[k]);
                }
            };
            assert(ns.drop_last() == os);
            assert(ns.last() == index);
        }
    }
}

/// On equal allocator parameters, the same requests get the same
/// offsets: two allocations return `0` (aligned) and
/// `align(size of the first)`, and a `reset` allocator answers exactly
/// as a fresh one does.
pub proof fn lemma_bump_allocations_are_deterministic(a: BumpAllocator, b: BumpAllocator, s: int)
    requires
        a.capacity() == b.capacity(),
        a.alignment() == b.alignment(),
        a.top() == b.top(),
    ensures
        a.spec_allocate(s) == b.spec_allocate(s),
{
}

/// The offsets of two successive bump allocations: the first lands at
/// offset `0` (the aligned bottom of the region), and the second at
/// `align(0 + s1)`, the first's end rounded up to the alignment.
pub proof fn lemma_bump_two_allocations(a0: BumpAllocator, a1: BumpAllocator, s1: int, s2: int)
    requires
        a0.wf(),
        a0.top() == 0,
        0 <= s1 <= a0.capacity(),
        a1.capacity() == a0.capacity(),
        a1.alignment() == a0.alignment(),
        a1.top() == 0 + s1,
        spec_align(0 + s1, a0.alignment()) + s2 <= a0.capacity(),
    ensures
        a0.spec_allocate(s1) == Some(0int),
        a1.spec_allocate(s2) == Some(spec_align(0 + s1, a0.alignment())),
{
    assert(spec_align(0, a0.alignment()) == 0);
}

} // verus!
