//! The deferred-destruction batch: device objects and memory queued
//! for destruction once the GPU is known to be done with them.
//!
//! Device objects are carried as their raw 64-bit handles; the purge
//! hands them back, grouped and ordered for destruction (views before
//! images, then buffers, memory blocks and descriptor sets), while
//! sub-allocated uniform offsets are returned to the uniform slab
//! directly.
use vstd::prelude::*;
use crate::uniforms::UniformStorage;

verus! {

/// An unordered batch of pending-free device objects and memory
/// offsets, collected over one frame's work.
#[derive(Debug)]
pub struct DropList {
    memory_to_free: Vec<u64>,
    images_to_free: Vec<u64>,
    image_views_to_free: Vec<u64>,
    buffers_to_free: Vec<u64>,
    descriptors_to_free: Vec<u64>,
    uniforms_to_free: Vec<usize>,
}

/// What a purge hands back for the caller to destroy, in destruction
/// order: image views before images (a view cannot outlive its
/// image), then buffers, raw memory blocks, and descriptor sets.
pub struct PurgeList {
    pub image_views: Vec<u64>,
    pub images: Vec<u64>,
    pub buffers: Vec<u64>,
    pub memory: Vec<u64>,
    pub descriptor_sets: Vec<u64>,
}

impl DropList {
    /// The queued memory blocks.
    pub closed spec fn queued_memory(self) -> Seq<u64> {
        self.memory_to_free@
    }

    /// The queued images.
    pub closed spec fn queued_images(self) -> Seq<u64> {
        self.images_to_free@
    }

    /// The queued image views.
    pub closed spec fn queued_image_views(self) -> Seq<u64> {
        self.image_views_to_free@
    }

    /// The queued buffers.
    pub closed spec fn queued_buffers(self) -> Seq<u64> {
        self.buffers_to_free@
    }

    /// The queued descriptor sets.
    pub closed spec fn queued_descriptors(self) -> Seq<u64> {
        self.descriptors_to_free@
    }

    /// The queued uniform-slab offsets.
    pub closed spec fn queued_uniforms(self) -> Seq<usize> {
        self.uniforms_to_free@
    }

    /// Whether nothing at all is queued.
    pub open spec fn is_clear(self) -> bool {
        &&& self.queued_memory().len() == 0
        &&& self.queued_images().len() == 0
        &&& self.queued_image_views().len() == 0
        &&& self.queued_buffers().len() == 0
        &&& self.queued_descriptors().len() == 0
        &&& self.queued_uniforms().len() == 0
    }

    /// Whether the queued uniform offsets can all be returned to the
    /// slab: each is live, and no offset is queued twice.
    pub open spec fn purgeable(self, uniforms: UniformStorage) -> bool {
        &&& forall|k: int|
            0 <= k < self.queued_uniforms().len() ==> uniforms.offset_live(
                (#[trigger] self.queued_uniforms()[k]) as int,
            )
        &&& forall|j: int, k: int|
            0 <= j < k < self.queued_uniforms().len() ==> self.queued_uniforms()[j]
                != self.queued_uniforms()[k]
    }

    /// An empty batch.
    pub fn new() -> (r: Self)
        ensures
            r.is_clear(),
    {
        DropList {
            memory_to_free: Vec::new(),
            images_to_free: Vec::new(),
            image_views_to_free: Vec::new(),
            buffers_to_free: Vec::new(),
            descriptors_to_free: Vec::new(),
            uniforms_to_free: Vec::new(),
        }
    }

    /// Queues an image for destruction.
    pub fn drop_image(&mut self, image: u64)
        ensures
            final(self).queued_images() == old(self).queued_images().push(image),
            final(self).queued_memory() == old(self).queued_memory(),
            final(self).queued_image_views() == old(self).queued_image_views(),
            final(self).queued_buffers() == old(self).queued_buffers(),
            final(self).queued_descriptors() == old(self).queued_descriptors(),
            final(self).queued_uniforms() == old(self).queued_uniforms(),
    {
        self.images_to_free.push(image);
    }

    /// Queues an image view for destruction.
    pub fn drop_image_view(&mut self, view: u64)
        ensures
            final(self).queued_image_views() == old(self).queued_image_views().push(view),
            final(self).queued_memory() == old(self).queued_memory(),
            final(self).queued_images() == old(self).queued_images(),
            final(self).queued_buffers() == old(self).queued_buffers(),
            final(self).queued_descriptors() == old(self).queued_descriptors(),
            final(self).queued_uniforms() == old(self).queued_uniforms(),
    {
        self.image_views_to_free.push(view);
    }

    /// Queues a buffer for destruction.
    pub fn drop_buffer(&mut self, buffer: u64)
        ensures
            final(self).queued_buffers() == old(self).queued_buffers().push(buffer),
            final(self).queued_memory() == old(self).queued_memory(),
            final(self).queued_images() == old(self).queued_images(),
            final(self).queued_image_views() == old(self).queued_image_views(),
            final(self).queued_descriptors() == old(self).queued_descriptors(),
            final(self).queued_uniforms() == old(self).queued_uniforms(),
    {
        self.buffers_to_free.push(buffer);
    }

    /// Queues a memory block for release.
    pub fn free_memory(&mut self, block: u64)
        ensures
            final(self).queued_memory() == old(self).queued_memory().push(block),
            final(self).queued_images() == old(self).queued_images(),
            final(self).queued_image_views() == old(self).queued_image_views(),
            final(self).queued_buffers() == old(self).queued_buffers(),
            final(self).queued_descriptors() == old(self).queued_descriptors(),
            final(self).queued_uniforms() == old(self).queued_uniforms(),
    {
        self.memory_to_free.push(block);
    }

    /// Queues a descriptor set for release.
    pub fn free_descriptor_set(&mut self, descriptor_set: u64)
        ensures
            final(self).queued_descriptors() == old(self).queued_descriptors().push(
                descriptor_set,
            ),
            final(self).queued_memory() == old(self).queued_memory(),
            final(self).queued_images() == old(self).queued_images(),
            final(self).queued_image_views() == old(self).queued_image_views(),
            final(self).queued_buffers() == old(self).queued_buffers(),
            final(self).queued_uniforms() == old(self).queued_uniforms(),
    {
        self.descriptors_to_free.push(descriptor_set);
    }

    /// Queues a uniform-slab offset for release.
    pub fn free_uniform(&mut self, uniform: usize)
        ensures
            final(self).queued_uniforms() == old(self).queued_uniforms().push(uniform),
            final(self).queued_memory() == old(self).queued_memory(),
            final(self).queued_images() == old(self).queued_images(),
            final(self).queued_image_views() == old(self).queued_image_views(),
            final(self).queued_buffers() == old(self).queued_buffers(),
            final(self).queued_descriptors() == old(self).queued_descriptors(),
    {
        self.uniforms_to_free.push(uniform);
    }

    /// Empties the batch: queued uniform offsets go straight back to
    /// the uniform slab, and everything else is handed back for the
    /// caller to destroy, in destruction order. Purging an already
    /// empty batch changes nothing and destroys nothing, and after a
    /// purge no queue retains a reference.
    pub fn purge(&mut self, uniforms: &mut UniformStorage) -> (r: PurgeList)
        requires
            old(uniforms).wf(),
            old(self).purgeable(*old(uniforms)),
        ensures
            final(self).is_clear(),
            final(uniforms).wf(),
            final(uniforms).mem() == old(uniforms).mem(),
            final(uniforms).num_buckets() == old(uniforms).num_buckets(),
            r.image_views@ == old(self).queued_image_views(),
            r.images@ == old(self).queued_images(),
            r.buffers@ == old(self).queued_buffers(),
            r.memory@ == old(self).queued_memory(),
            r.descriptor_sets@ == old(self).queued_descriptors(),
            forall|k: int|
                0 <= k < old(self).queued_uniforms().len() ==> !final(uniforms).offset_live(
                    (#[trigger] old(self).queued_uniforms()[k]) as int,
                ),
            forall|o: int|
                old(uniforms).offset_live(o) && !old(self).queued_uniforms().contains(o as usize)
                    ==> final(uniforms).offset_live(o),
            old(self).is_clear() ==> *final(uniforms) == *old(uniforms),
    {
        let mut image_views: Vec<u64> = Vec::new();
        core::mem::swap(&mut image_views, &mut self.image_views_to_free);
        let mut images: Vec<u64> = Vec::new();
        core::mem::swap(&mut images, &mut self.images_to_free);
        let mut buffers: Vec<u64> = Vec::new();
        core::mem::swap(&mut buffers, &mut self.buffers_to_free);
        let mut memory: Vec<u64> = Vec::new();
        core::mem::swap(&mut memory, &mut self.memory_to_free);
        let mut descriptor_sets: Vec<u64> = Vec::new();
        core::mem::swap(&mut descriptor_sets, &mut self.descriptors_to_free);
        let mut queued: Vec<usize> = Vec::new();
        core::mem::swap(&mut queued, &mut self.uniforms_to_free);
        let n = queued.len();
        let ghost pre_u = *old(uniforms);
        let mut idx: usize = 0;
        while idx < n
            invariant
                n == queued@.len(),
                idx <= n,
                queued@ == old(self).queued_uniforms(),
                uniforms.wf(),
                uniforms.mem() == pre_u.mem(),
                uniforms.num_buckets() == pre_u.num_buckets(),
                forall|j: int, k: int| 0 <= j < k < n ==> queued@[j] != queued@[k],
                forall|k: int|
                    idx <= k < n ==> uniforms.offset_live((#[trigger] queued@[k]) as int),
                forall|k: int|
                    0 <= k < idx ==> !uniforms.offset_live((#[trigger] queued@[k]) as int),
                forall|o: int|
                    pre_u.offset_live(o) && !queued@.contains(o as usize)
                        ==> uniforms.offset_live(o),
                n == 0 ==> *uniforms == pre_u,
            decreases n - idx,
        {
            let ghost mid_u = *uniforms;
            let offset = queued[idx];
            uniforms.dealloc(offset);
            proof {
                assert forall|k: int|
                    0 <= k < idx + 1 implies !uniforms.offset_live(
                    (#[trigger] queued@[k]) as int,
                ) by {
                    if k < idx {
                        assert(!mid_u.offset_live(queued@[k] as int));
                    }
                };
                assert forall|k: int|
                    idx + 1 <= k < n implies uniforms.offset_live(
                    (#[trigger] queued@[k]) as int,
                ) by {
                    assert(mid_u.offset_live(queued@[k] as int));
                    assert(queued@[k] != offset);
                };
                assert forall|o: int|
                    pre_u.offset_live(o) && !queued@.contains(o as usize) implies uniforms
                    .offset_live(o) by {
                    assert(mid_u.offset_live(o));
                    assert(queued@[idx as int] == offset);
                    assert(o != offset as int);
                };
            }
            idx += 1;
        }
        PurgeList { image_views, images, buffers, memory, descriptor_sets }
    }
}

impl Default for DropList {
    /// An empty batch.
    fn default() -> (r: Self)
        ensures
            r.is_clear(),
    {
        Self::new()
    }
}

} // verus!
