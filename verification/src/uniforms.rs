//! The bucketed slab that backs uniform storage: a fixed byte budget
//! partitioned into equally sized buckets, each owning a fixed-stride
//! block allocator for one size class.
use vstd::prelude::*;
use crate::memory::BlockAllocator;
use crate::error::RenderError;

verus! {

/// Bytes each bucket spans inside the uniform region.
pub const BUCKET_SIZE: usize = 0xFFFF;

/// Smallest stride a bucket can be created with.
pub const MIN_UNIFORM_SIZE: usize = 0x100;

/// Largest stride a bucket can be created with, and the largest
/// payload the slab accepts.
pub const MAX_UNIFORM_SIZE: usize = 0x4000;

/// Total byte budget of the uniform region.
pub const UNIFORM_BUFFER_SIZE: usize = 8 * 1024 * 1024;

/// Number of bucket slots the region is divided into.
pub const BUCKET_COUNT: usize = UNIFORM_BUFFER_SIZE / BUCKET_SIZE;

/// The `(min, max]` size-class range a payload of `size` bytes falls
/// into; its upper bound is the stride of the bucket that serves it.
pub open spec fn size_class(size: int) -> (int, int) {
    if 8192 < size <= 16384 {
        (8192, 16384)
    } else if 4096 < size <= 8192 {
        (4096, 8192)
    } else if 2048 < size <= 4096 {
        (2048, 4096)
    } else if 1024 < size <= 2048 {
        (1024, 2048)
    } else if 512 < size <= 1024 {
        (512, 1024)
    } else if 256 < size <= 512 {
        (256, 512)
    } else {
        (0, 256)
    }
}

/// Whether `(lo, hi)` is one of the size classes a bucket can serve.
pub open spec fn is_size_class(lo: int, hi: int) -> bool {
    (lo, hi) == size_class(hi)
}

/// One bucket of the slab: a size-class range and a fixed-stride
/// block allocator over the bucket's byte span, present only while
/// the bucket is committed to a class.
#[derive(Debug)]
pub struct Bucket {
    from: usize,
    to: usize,
    allocated: usize,
    free: usize,
    allocator: Option<BlockAllocator>,
}

impl Bucket {
    /// Lower bound (exclusive) of the size class served.
    pub closed spec fn lower(self) -> int {
        self.from as int
    }

    /// Upper bound (inclusive) of the size class served; also the
    /// stride of the bucket's blocks.
    pub closed spec fn upper(self) -> int {
        self.to as int
    }

    /// Number of blocks currently handed out.
    pub closed spec fn num_allocated(self) -> int {
        self.allocated as int
    }

    /// Number of blocks still free.
    pub closed spec fn num_free(self) -> int {
        self.free as int
    }

    /// Whether the bucket is committed to a size class.
    pub closed spec fn initialized(self) -> bool {
        self.allocator is Some
    }

    /// The stack of free block indices of the committed bucket.
    pub closed spec fn chunk_stack(self) -> Seq<usize> {
        self.allocator->0.free_chunks()
    }

    /// Whether `local` is a block offset this bucket has handed out
    /// and not yet taken back.
    pub open spec fn offset_live(self, local: int) -> bool {
        &&& self.initialized()
        &&& 0 <= local
        &&& local % self.upper() == 0
        &&& local / self.upper() < Self::blocks_per_bucket(self.upper())
        &&& !self.chunk_stack().contains((local / self.upper()) as usize)
    }

    /// How many blocks of stride `hi` fit in one bucket span.
    pub open spec fn blocks_per_bucket(hi: int) -> int {
        BUCKET_SIZE as int / hi
    }

    /// A committed bucket serves a sane class and its counters agree
    /// with its block allocator; an uncommitted one holds nothing.
    pub closed spec fn wf(self) -> bool {
        if self.allocator is Some {
            let a = self.allocator->0;
            &&& MIN_UNIFORM_SIZE <= self.to <= MAX_UNIFORM_SIZE
            &&& self.from < self.to
            &&& a.wf()
            &&& a.chunk_size() == self.to
            &&& a.chunk_count() == BUCKET_SIZE as int / self.to as int
            &&& self.free == a.free_chunks().len()
            &&& self.allocated + self.free == a.chunk_count()
        } else {
            self.free == 0 && self.allocated == 0
        }
    }

    /// Commits the bucket to the size class `(from, to]`, with every
    /// block free.
    pub fn init(&mut self, from: usize, to: usize)
        requires
            to >= MIN_UNIFORM_SIZE,
            from < MAX_UNIFORM_SIZE,
            to <= MAX_UNIFORM_SIZE,
            to > from,
        ensures
            final(self).wf(),
            final(self).initialized(),
            final(self).lower() == from,
            final(self).upper() == to,
            final(self).num_allocated() == 0,
            final(self).num_free() == Self::blocks_per_bucket(to as int),
            final(self).num_free() >= 1,
            final(self).chunk_stack().len() == Self::blocks_per_bucket(to as int),
            forall|j: int|
                0 <= j < final(self).chunk_stack().len() ==> #[trigger] final(self).chunk_stack()[j] == Self::blocks_per_bucket(to as int) - 1 - j,
    {
        proof {
            vstd::arithmetic::div_mod::lemma_fundamental_div_mod(BUCKET_SIZE as int, to as int);
            vstd::arithmetic::div_mod::lemma_mod_division_less_than_divisor(
                BUCKET_SIZE as int,
                to as int,
            );
            vstd::arithmetic::div_mod::lemma_div_non_zero(BUCKET_SIZE as int, to as int);
        }
        self.from = from;
        self.to = to;
        self.allocated = 0;
        self.free = BUCKET_SIZE / to;
        self.allocator = Some(BlockAllocator::new(to, BUCKET_SIZE / to));
    }

    /// Hands out one block of the bucket and returns its byte offset
    /// within the bucket span.
    pub fn allocate(&mut self) -> (r: Option<usize>)
        requires
            old(self).wf(),
            old(self).initialized(),
            old(self).num_free() > 0,
        ensures
            final(self).wf(),
            final(self).initialized(),
            final(self).lower() == old(self).lower(),
            final(self).upper() == old(self).upper(),
            final(self).num_allocated() == old(self).num_allocated() + 1,
            final(self).num_free() == old(self).num_free() - 1,
            ({
                match r {
                    Some(offset) => {
                        &&& offset == old(self).chunk_stack().last() * old(self).upper()
                        &&& final(self).chunk_stack() == old(self).chunk_stack().drop_last()
                        &&& final(self).offset_live(offset as int)
                        &&& offset + old(self).upper() <= BUCKET_SIZE
                    },
                    None => false,
                }
            }),
    {
        match &mut self.allocator {
            Some(allocator) => {
                self.allocated += 1;
                self.free -= 1;
                let r = allocator.allocate();
                proof {
                    let cs = old(self).allocator->0.chunk_size();
                    let cc = old(self).allocator->0.chunk_count();
                    assert(cs * cc <= BUCKET_SIZE) by (nonlinear_arith)
                        requires
                            cs > 0,
                            cc == BUCKET_SIZE as int / cs,
                    ;
                }
                r
            },
            None => None,
        }
    }

    /// Takes a block back. Returns whether the bucket still has any
    /// block handed out: when it does not, the caller releases the
    /// bucket for another size class.
    pub fn dealloc(&mut self, offset: usize) -> (r: bool)
        requires
            old(self).wf(),
            old(self).offset_live(offset as int),
        ensures
            final(self).wf(),
            final(self).initialized(),
            final(self).lower() == old(self).lower(),
            final(self).upper() == old(self).upper(),
            final(self).num_allocated() == old(self).num_allocated() - 1,
            final(self).num_free() == old(self).num_free() + 1,
            !final(self).offset_live(offset as int),
            final(self).chunk_stack() == old(self).chunk_stack().push(
                ((offset as int) / old(self).upper()) as usize,
            ),
            r == (final(self).num_allocated() > 0),
    {
        match &mut self.allocator {
            Some(allocator) => {
                proof {
                    allocator.lemma_free_chunks_bounded(offset as int);
                }
                self.allocated -= 1;
                self.free += 1;
                allocator.dealloc(offset);
                self.allocated > 0
            },
            None => false,
        }
    }

    /// Two distinct live block offsets mean at least two blocks are
    /// handed out.
    pub proof fn lemma_two_live_blocks(self, l1: int, l2: int)
        requires
            self.wf(),
            self.offset_live(l1),
            self.offset_live(l2),
            l1 / self.upper() != l2 / self.upper(),
        ensures
            self.num_allocated() >= 2,
    {
        let a = self.allocator->0;
        a.lemma_free_chunks_bounded_two(l1, l2);
    }

    /// Whether this bucket can serve a payload of `size` bytes: it is
    /// committed, has a free block, and `size` falls in its class.
    pub fn is_suitable(&self, size: usize) -> (r: bool)
        ensures
            r == (self.initialized() && self.num_free() > 0 && self.lower() < size <= self.upper()),
    {
        self.allocator.is_some() && self.free > 0 && size > self.from && size <= self.to
    }

    /// Releases a fully empty bucket back to the uncommitted pool so
    /// another size class can reuse its byte span.
    pub fn release(&mut self)
        requires
            old(self).wf(),
            old(self).num_allocated() == 0,
        ensures
            final(self).wf(),
            !final(self).initialized(),
    {
        self.allocator = None;
        self.free = 0;
        self.allocated = 0;
        self.to = 0;
        self.from = 0;
    }
}

/// The uniform slab: a fixed byte budget partitioned into
/// [`BUCKET_COUNT`] bucket spans, committed to size classes on demand
/// and released back when they empty, over a byte region this model
/// owns.
pub struct UniformStorage {
    buckets: Vec<Bucket>,
    free_buckets: Vec<usize>,
    memory: Vec<u8>,
}

impl UniformStorage {
    /// Number of bucket slots ever committed or released.
    pub closed spec fn num_buckets(self) -> int {
        self.buckets@.len() as int
    }

    /// The bucket at slot `i`.
    pub closed spec fn bucket_at(self, i: int) -> Bucket {
        self.buckets@[i]
    }

    /// The stack of released bucket slots awaiting a new size class.
    pub closed spec fn free_list(self) -> Seq<usize> {
        self.free_buckets@
    }

    /// The bytes of the uniform region.
    pub closed spec fn mem(self) -> Seq<u8> {
        self.memory@
    }

    /// Whether bucket `i` can serve a payload of `size` bytes.
    pub open spec fn suitable(self, i: int, size: int) -> bool {
        &&& self.bucket_at(i).initialized()
        &&& self.bucket_at(i).num_free() > 0
        &&& self.bucket_at(i).lower() < size <= self.bucket_at(i).upper()
    }

    /// The smallest bucket index at or after `i` that can serve
    /// `size` bytes, or the bucket count when there is none.
    pub open spec fn first_suitable_from(self, size: int, i: int) -> int
        decreases self.num_buckets() - i,
    {
        if i < 0 || i >= self.num_buckets() {
            self.num_buckets()
        } else if self.suitable(i, size) {
            i
        } else {
            self.first_suitable_from(size, i + 1)
        }
    }

    /// The bucket a `push` of `size` bytes goes to: the first
    /// suitable bucket, else the most recently released slot, else a
    /// fresh slot at the end.
    pub open spec fn push_bucket(self, size: int) -> int {
        let f = self.first_suitable_from(size, 0);
        if f < self.num_buckets() {
            f
        } else if self.free_list().len() > 0 {
            self.free_list().last() as int
        } else {
            self.num_buckets()
        }
    }

    /// The block offset inside its bucket that a `push` of `size`
    /// bytes gets: the top of an existing bucket's free stack, or the
    /// lowest block of a freshly committed bucket.
    pub open spec fn push_local_offset(self, size: int) -> int {
        let f = self.first_suitable_from(size, 0);
        if f < self.num_buckets() {
            self.bucket_at(f).chunk_stack().last() * self.bucket_at(f).upper()
        } else {
            0
        }
    }

    /// When a `push` of `size` bytes is refused: no committed bucket
    /// can serve it, no released slot is available, and every slot is
    /// in use.
    pub open spec fn push_fails(self, size: int) -> bool {
        &&& self.first_suitable_from(size, 0) == self.num_buckets()
        &&& self.free_list().len() == 0
        &&& self.num_buckets() == BUCKET_COUNT
    }

    /// Whether `offset` is a byte offset this slab has handed out and
    /// not yet taken back.
    pub open spec fn offset_live(self, offset: int) -> bool {
        let b = offset / BUCKET_SIZE as int;
        &&& 0 <= offset
        &&& b < self.num_buckets()
        &&& self.bucket_at(b).offset_live(offset % BUCKET_SIZE as int)
    }

    /// Whether the bucket at slot `i` is well-formed; exposed so that
    /// proofs outside the type can appeal to it.
    pub open spec fn buckets_wf_at(self, i: int) -> bool {
        self.bucket_at(i).wf()
    }

    /// Slab well-formedness: every bucket is well-formed and serves a
    /// real size class, and the released-slot stack lists exactly the
    /// uncommitted slots, without duplicates.
    pub closed spec fn wf(self) -> bool {
        &&& self.buckets@.len() <= BUCKET_COUNT
        &&& forall|i: int| 0 <= i < self.buckets@.len() ==> (#[trigger] self.buckets@[i]).wf()
        &&& forall|i: int|
            0 <= i < self.buckets@.len() && (#[trigger] self.buckets@[i]).initialized()
                ==> is_size_class(self.buckets@[i].lower(), self.buckets@[i].upper())
        &&& forall|j: int|
            0 <= j < self.free_buckets@.len() ==> (#[trigger] self.free_buckets@[j])
                < self.buckets@.len()
        &&& forall|j: int|
            0 <= j < self.free_buckets@.len() ==> !self.buckets@[(
            #[trigger] self.free_buckets@[j]) as int].initialized()
        &&& forall|i: int|
            0 <= i < self.buckets@.len() && !(#[trigger] self.buckets@[i]).initialized()
                ==> self.free_buckets@.contains(i as usize)
        &&& forall|j: int, k: int|
            0 <= j < k < self.free_buckets@.len() ==> (#[trigger] self.free_buckets@[j]) != (
            #[trigger] self.free_buckets@[k])
        &&& self.memory@.len() == UNIFORM_BUFFER_SIZE
    }

    /// A fresh slab: no bucket committed, the whole region zeroed.
    pub fn new() -> (r: Self)
        ensures
            r.wf(),
            r.num_buckets() == 0,
            r.free_list() =~= Seq::<usize>::empty(),
            r.mem() =~= Seq::new(UNIFORM_BUFFER_SIZE as nat, |i: int| 0u8),
    {
        let memory = vec![0u8; UNIFORM_BUFFER_SIZE];
        proof {
            assert(memory@ =~= Seq::new(UNIFORM_BUFFER_SIZE as nat, |i: int| 0u8));
        }
        UniformStorage { buckets: Vec::new(), free_buckets: Vec::new(), memory }
    }

    /// The size class serving `size` bytes, as the `(min, max]` pair.
    fn find_size_range(size: usize) -> (r: (usize, usize))
        requires
            0 < size <= MAX_UNIFORM_SIZE,
        ensures
            (r.0 as int, r.1 as int) == size_class(size as int),
    {
        if size > 8192 {
            (8192, 16384)
        } else if size > 4096 {
            (4096, 8192)
        } else if size > 2048 {
            (2048, 4096)
        } else if size > 1024 {
            (1024, 2048)
        } else if size > 512 {
            (512, 1024)
        } else if size > 256 {
            (256, 512)
        } else {
            (0, 256)
        }
    }

    /// The first committed bucket that can serve `size` bytes.
    fn find_bucket_index(&self, size: usize) -> (r: Option<usize>)
        requires
            self.wf(),
        ensures
            match r {
                Some(i) => {
                    &&& i == self.first_suitable_from(size as int, 0)
                    &&& i < self.num_buckets()
                    &&& self.suitable(i as int, size as int)
                },
                None => self.first_suitable_from(size as int, 0) == self.num_buckets(),
            },
    {
        let n = self.buckets.len();
        let mut i: usize = 0;
        while i < n
            invariant
                self.wf(),
                n == self.num_buckets(),
                i <= n,
                forall|j: int| 0 <= j < i ==> !self.suitable(j, size as int),
                self.first_suitable_from(size as int, 0) == self.first_suitable_from(
                    size as int,
                    i as int,
                ),
            decreases n - i,
        {
            if self.buckets[i].is_suitable(size) {
                return Some(i);
            }
            i += 1;
        }
        None
    }

    /// Commits a bucket for the class of `size`: the most recently
    /// released slot if any, else a fresh slot, unless every slot is
    /// in use.
    fn allocate_bucket(&mut self, size: usize) -> (r: Option<usize>)
        requires
            old(self).wf(),
            0 < size <= MAX_UNIFORM_SIZE,
        ensures
            final(self).wf(),
            final(self).mem() == old(self).mem(),
            match r {
                Some(i) => {
                    &&& if old(self).free_list().len() > 0 {
                        &&& i == old(self).free_list().last()
                        &&& final(self).free_list() == old(self).free_list().drop_last()
                        &&& final(self).num_buckets() == old(self).num_buckets()
                    } else {
                        &&& i == old(self).num_buckets()
                        &&& final(self).free_list() == old(self).free_list()
                        &&& final(self).num_buckets() == old(self).num_buckets() + 1
                    }
                    &&& i < final(self).num_buckets()
                    &&& final(self).bucket_at(i as int).initialized()
                    &&& final(self).bucket_at(i as int).num_free() >= 1
                    &&& final(self).bucket_at(i as int).num_allocated() == 0
                    &&& final(self).bucket_at(i as int).upper() == size_class(size as int).1
                    &&& final(self).bucket_at(i as int).lower() == size_class(size as int).0
                    &&& final(self).bucket_at(i as int).chunk_stack().len() == final(self).bucket_at(i as int).num_free()
                    &&& final(self).bucket_at(i as int).chunk_stack().last() == 0
                    &&& forall|j: int|
                        0 <= j < old(self).num_buckets() && j != i ==> final(self).bucket_at(j)
                            == old(self).bucket_at(j)
                },
                None => {
                    &&& old(self).free_list().len() == 0
                    &&& old(self).num_buckets() == BUCKET_COUNT
                    &&& final(self).free_list() == old(self).free_list()
                    &&& final(self).num_buckets() == old(self).num_buckets()
                    &&& forall|j: int|
                        0 <= j < old(self).num_buckets() ==> final(self).bucket_at(j) == old(self).bucket_at(j)
                },
            },
    {
        let (from, to) = Self::find_size_range(size);
        proof {
            assert(MIN_UNIFORM_SIZE <= size_class(size as int).1 <= MAX_UNIFORM_SIZE);
        }
        if let Some(free) = self.free_buckets.pop() {
            let mut bucket = Bucket::default();
            bucket.init(from, to);
            proof {
                let a = bucket.chunk_stack();
                assert(a.last() == 0) by {
                    assert(a[a.len() - 1] == 0);
                }
            }
            self.buckets[free] = bucket;
            proof {
                let os = old(self).free_buckets@;
                assert(self.free_buckets@ =~= os.drop_last());
                assert forall|i2: int|
                    0 <= i2 < self.buckets@.len() && !(#[trigger] self.buckets@[i2]).initialized()
                        implies self.free_buckets@.contains(i2 as usize) by {
                    assert(!old(self).buckets@[i2].initialized());
                    assert(os.contains(i2 as usize));
                    let j = choose|j: int| 0 <= j < os.len() && os[j] == i2 as usize;
                    assert(i2 != free as int);
                    assert(j != os.len() - 1);
                    assert(self.free_buckets@[j] == i2 as usize);
                };
            }
            Some(free)
        } else if self.buckets.len() == BUCKET_COUNT {
            None
        } else {
            let index = self.buckets.len();
            let mut bucket = Bucket::default();
            bucket.init(from, to);
            proof {
                let a = bucket.chunk_stack();
                assert(a.last() == 0) by {
                    assert(a[a.len() - 1] == 0);
                }
            }
            self.buckets.push(bucket);
            proof {
                assert forall|i2: int|
                    0 <= i2 < self.buckets@.len() && !(#[trigger] self.buckets@[i2]).initialized()
                        implies self.free_buckets@.contains(i2 as usize) by {
                    assert(i2 < old(self).buckets@.len());
                    assert(!old(self).buckets@[i2].initialized());
                };
            }
            Some(index)
        }
    }

    /// Stores `data` in the slab: the first bucket of its size class
    /// with room, a newly committed bucket when none has, or the
    /// out-of-space error when every bucket slot is in use. On
    /// success the payload occupies `data.len()` bytes of the region
    /// at the returned offset.
    pub fn push(&mut self, data: &[u8]) -> (r: Result<usize, RenderError>)
        requires
            old(self).wf(),
            0 < data@.len() <= MAX_UNIFORM_SIZE,
        ensures
            final(self).wf(),
            final(self).num_buckets() >= old(self).num_buckets(),
            match r {
                Ok(offset) => {
                    let n = data@.len() as int;
                    let b = old(self).push_bucket(n);
                    &&& !old(self).push_fails(n)
                    &&& offset == b * BUCKET_SIZE + old(self).push_local_offset(n)
                    &&& offset + n <= UNIFORM_BUFFER_SIZE
                    &&& 0 <= b < final(self).num_buckets()
                    &&& final(self).bucket_at(b).upper() == size_class(n).1
                    &&& final(self).bucket_at(b).num_allocated() >= 1
                    &&& if old(self).first_suitable_from(n, 0) < old(self).num_buckets() {
                        &&& final(self).free_list() == old(self).free_list()
                        &&& final(self).num_buckets() == old(self).num_buckets()
                        &&& final(self).bucket_at(b).num_allocated() == old(self).bucket_at(
                            b,
                        ).num_allocated() + 1
                        &&& final(self).bucket_at(b).chunk_stack() == old(self).bucket_at(
                            b,
                        ).chunk_stack().drop_last()
                    } else if old(self).free_list().len() > 0 {
                        &&& final(self).free_list() == old(self).free_list().drop_last()
                        &&& final(self).num_buckets() == old(self).num_buckets()
                        &&& final(self).bucket_at(b).num_allocated() == 1
                    } else {
                        &&& final(self).free_list() == old(self).free_list()
                        &&& final(self).num_buckets() == old(self).num_buckets() + 1
                        &&& final(self).bucket_at(b).num_allocated() == 1
                    }
                    &&& final(self).offset_live(offset as int)
                    &&& final(self).mem() =~= old(self).mem().subrange(0, offset as int) + data@
                        + old(self).mem().subrange(offset + n, UNIFORM_BUFFER_SIZE as int)
                    &&& forall|j: int|
                        0 <= j < old(self).num_buckets() && j != b ==> final(self).bucket_at(j)
                            == old(self).bucket_at(j)
                },
                Err(e) => {
                    &&& e == RenderError::OutOfAllocatedSpace
                    &&& old(self).push_fails(data@.len() as int)
                    &&& final(self).mem() == old(self).mem()
                    &&& final(self).num_buckets() == old(self).num_buckets()
                    &&& final(self).free_list() == old(self).free_list()
                    &&& forall|j: int|
                        0 <= j < old(self).num_buckets() ==> final(self).bucket_at(j) == old(
                            self,
                        ).bucket_at(j)
                },
            },
    {
        let ghost pre = *old(self);
        let size = data.len();
        let found = self.find_bucket_index(size);
        let index_opt = if found.is_none() {
            self.allocate_bucket(size)
        } else {
            found
        };
        match index_opt {
            None => Err(RenderError::OutOfAllocatedSpace),
            Some(index) => {
                let ghost mid = *self;
                proof {
                    assert(index < BUCKET_COUNT);
                    assert(index * BUCKET_SIZE + BUCKET_SIZE <= UNIFORM_BUFFER_SIZE)
                        by (nonlinear_arith)
                        requires
                            (index as int) < 128,
                            BUCKET_SIZE == 0xFFFFusize,
                            UNIFORM_BUFFER_SIZE == 8 * 1024 * 1024,
                    ;
                }
                let base_offset = index * BUCKET_SIZE;
                let mut bucket = Bucket::default();
                core::mem::swap(&mut bucket, &mut self.buckets[index]);
                proof {
                    assert(bucket == mid.bucket_at(index as int));
                    assert(mid.buckets@[index as int].wf());
                    if found is Some {
                        assert(mid == pre);
                        assert(pre.suitable(index as int, size as int));
                    }
                    assert(bucket.initialized());
                    assert(bucket.num_free() > 0);
                }
                let local_opt = bucket.allocate();
                match local_opt {
                    Some(local) => {
                        let offset = base_offset + local;
                        self.buckets[index] = bucket;
                        proof {
                            assert(local + mid.bucket_at(index as int).upper() <= BUCKET_SIZE);
                            assert(size <= mid.bucket_at(index as int).upper());
                            vstd::arithmetic::div_mod::lemma_fundamental_div_mod_converse(
                                offset as int,
                                BUCKET_SIZE as int,
                                index as int,
                                local as int,
                            );
                            assert forall|i2: int|
                                0 <= i2 < self.buckets@.len() && !(
                                #[trigger] self.buckets@[i2]).initialized() implies self
                                .free_buckets@.contains(i2 as usize) by {
                                assert(i2 != index as int);
                                assert(!mid.buckets@[i2].initialized());
                            };
                        }
                        crate::write_bytes(&mut self.memory, offset, data);
                        Ok(offset)
                    },
                    None => {
                        proof {
                            assert(false);
                        }
                        Err(RenderError::OutOfAllocatedSpace)
                    },
                }
            },
        }
    }

    /// Takes back the payload at `offset`, returning its block to its
    /// bucket; a bucket whose last block is taken back is released so
    /// another size class can reuse its byte span.
    pub fn dealloc(&mut self, offset: usize)
        requires
            old(self).wf(),
            old(self).offset_live(offset as int),
        ensures
            final(self).wf(),
            final(self).mem() == old(self).mem(),
            final(self).num_buckets() == old(self).num_buckets(),
            !final(self).offset_live(offset as int),
            forall|o: int|
                old(self).offset_live(o) && o != offset ==> final(self).offset_live(o),
            forall|o: int| !old(self).offset_live(o) ==> !final(self).offset_live(o),
            ({
                let b = (offset as int) / (BUCKET_SIZE as int);
                let local = (offset as int) % (BUCKET_SIZE as int);
                &&& forall|j: int|
                    0 <= j < old(self).num_buckets() && j != b ==> final(self).bucket_at(j) == old(
                        self,
                    ).bucket_at(j)
                &&& if old(self).bucket_at(b).num_allocated() > 1 {
                    &&& final(self).bucket_at(b).initialized()
                    &&& final(self).bucket_at(b).upper() == old(self).bucket_at(b).upper()
                    &&& final(self).bucket_at(b).num_allocated() == old(self).bucket_at(
                        b,
                    ).num_allocated() - 1
                    &&& final(self).bucket_at(b).chunk_stack() == old(self).bucket_at(
                        b,
                    ).chunk_stack().push((local / old(self).bucket_at(b).upper()) as usize)
                    &&& final(self).free_list() == old(self).free_list()
                } else {
                    &&& !final(self).bucket_at(b).initialized()
                    &&& final(self).free_list() == old(self).free_list().push(b as usize)
                }
            }),
    {
        proof {
            vstd::arithmetic::div_mod::lemma_fundamental_div_mod(
                offset as int,
                BUCKET_SIZE as int,
            );
            vstd::arithmetic::div_mod::lemma_mod_division_less_than_divisor(
                offset as int,
                BUCKET_SIZE as int,
            );
            vstd::arithmetic::div_mod::lemma_div_pos_is_pos(offset as int, BUCKET_SIZE as int);
        }
        let index = offset / BUCKET_SIZE;
        let local_offset = offset - index * BUCKET_SIZE;
        let mut bucket = Bucket::default();
        core::mem::swap(&mut bucket, &mut self.buckets[index]);
        let still_allocated = bucket.dealloc(local_offset);
        if !still_allocated {
            bucket.release();
            self.buckets[index] = bucket;
            self.free_buckets.push(index);
            proof {
                let ns = self.free_buckets@;
                let os = old(self).free_buckets@;
                assert(ns == os.push(index));
                assert forall|j: int, k: int| 0 <= j < k < ns.len() implies (#[trigger] ns[j]) != (
                #[trigger] ns[k]) by {
                    if k == ns.len() - 1 {
                        assert(ns[j] == os[j]);
                        assert(!old(self).buckets@[os[j] as int].initialized());
                        assert(old(self).buckets@[index as int].initialized());
                    } else {
                        assert(ns[j] == os[j] && ns[k] == os[k]);
                    }
                };
                assert forall|i2: int|
                    0 <= i2 < self.buckets@.len() && !(#[trigger] self.buckets@[i2]).initialized()
                        implies self.free_buckets@.contains(i2 as usize) by {
                    if i2 == index as int {
                        assert(ns[ns.len() - 1] == index);
                    } else {
                        assert(!old(self).buckets@[i2].initialized());
                        assert(os.contains(i2 as usize));
                        let j = choose|j: int| 0 <= j < os.len() && os[j] == i2 as usize;
                        assert(ns[j] == i2 as usize);
                    }
                };
            }
        } else {
            self.buckets[index] = bucket;
            proof {
                assert forall|i2: int|
                    0 <= i2 < self.buckets@.len() && !(#[trigger] self.buckets@[i2]).initialized()
                        implies self.free_buckets@.contains(i2 as usize) by {
                    assert(i2 != index as int);
                    assert(!old(self).buckets@[i2].initialized());
                };
            }
        }
        proof {
            assert forall|o: int|
                old(self).offset_live(o) && o != offset implies self.offset_live(o) by {
                lemma_dealloc_keeps_other_live(*old(self), *self, offset as int, o);
            };
            assert forall|o: int|
                !old(self).offset_live(o) implies !self.offset_live(o) by {
                if self.offset_live(o) {
                    let bs = BUCKET_SIZE as int;
                    let b2 = o / bs;
                    if b2 == index as int {
                        assert(self.bucket_at(b2).initialized());
                        let pre_b = old(self).bucket_at(b2);
                        let post_b = self.bucket_at(b2);
                        assert(post_b.upper() == pre_b.upper());
                        let u = pre_b.upper();
                        let c = ((o % bs) / u) as usize;
                        assert(pre_b.initialized());
                        if pre_b.chunk_stack().contains(c) {
                            let os2 = pre_b.chunk_stack();
                            let k = choose|k: int| 0 <= k < os2.len() && os2[k] == c;
                            assert(post_b.chunk_stack()[k] == c);
                            assert(post_b.chunk_stack().contains(c));
                        }
                    } else {
                        assert(self.bucket_at(b2) == old(self).bucket_at(b2));
                    }
                }
            };
        }
    }
}

/// Taking one payload back never kills another live offset: a live
/// offset in another bucket is untouched, and one in the same bucket
/// keeps the bucket committed (two distinct live blocks mean the
/// bucket cannot empty) and keeps its own block out of the free
/// stack.
proof fn lemma_dealloc_keeps_other_live(
    pre: UniformStorage,
    post: UniformStorage,
    offset: int,
    o: int,
)
    requires
        pre.wf(),
        pre.offset_live(offset),
        pre.offset_live(o),
        o != offset,
        post.num_buckets() == pre.num_buckets(),
        ({
            let b = offset / (BUCKET_SIZE as int);
            let local = offset % (BUCKET_SIZE as int);
            &&& forall|j: int|
                0 <= j < pre.num_buckets() && j != b ==> post.bucket_at(j) == pre.bucket_at(j)
            &&& if pre.bucket_at(b).num_allocated() > 1 {
                &&& post.bucket_at(b).initialized()
                &&& post.bucket_at(b).upper() == pre.bucket_at(b).upper()
                &&& post.bucket_at(b).chunk_stack() == pre.bucket_at(b).chunk_stack().push(
                    (local / pre.bucket_at(b).upper()) as usize,
                )
            } else {
                !post.bucket_at(b).initialized()
            }
        }),
    ensures
        post.offset_live(o),
{
    let bs = BUCKET_SIZE as int;
    let b = offset / bs;
    let local = offset % bs;
    let b2 = o / bs;
    let local2 = o % bs;
    vstd::arithmetic::div_mod::lemma_fundamental_div_mod(offset, bs);
    vstd::arithmetic::div_mod::lemma_fundamental_div_mod(o, bs);
    if b2 != b {
        assert(post.bucket_at(b2) == pre.bucket_at(b2));
    } else {
        let bk = pre.bucket_at(b);
        let u = bk.upper();
        let c1 = local / u;
        let c2 = local2 / u;
        vstd::arithmetic::div_mod::lemma_fundamental_div_mod(local, u);
        vstd::arithmetic::div_mod::lemma_fundamental_div_mod(local2, u);
        assert(local != local2);
        assert(c1 != c2);
        if bk.num_allocated() > 1 {
            let ns = post.bucket_at(b).chunk_stack();
            let os = bk.chunk_stack();
            assert(!ns.contains((local2 / u) as usize)) by {
                if ns.contains((local2 / u) as usize) {
                    let k = choose|k: int| 0 <= k < ns.len() && ns[k] == (local2 / u) as usize;
                    if k < os.len() {
                        assert(os[k] == ns[k]);
                        assert(os.contains((local2 / u) as usize));
                    } else {
                        assert(ns[k] == (c1 as usize));
                    }
                }
            }
        } else {
            assert(bk.wf()) by {
                assert(pre.buckets_wf_at(b));
            }
            bk.lemma_two_live_blocks(local, local2);
            assert(false);
        }
    }
}

impl Default for Bucket {
    /// An uncommitted bucket.
    fn default() -> (r: Self)
        ensures
            r.wf(),
            !r.initialized(),
    {
        Bucket { from: 0, to: 0, allocated: 0, free: 0, allocator: None }
    }
}

} // verus!
