//! Frames and the double-buffered frame scheduler.
//!
//! A frame owns one pipeline stage's transient resources: a
//! bump-allocated temporary byte region with a write cursor, and a
//! drop list of objects retired during the frame. The scheduler keeps
//! two frame slots and rotates them: `begin_frame` resets the front
//! slot (after the caller has waited for the GPU to finish with it)
//! and hands out an exclusive lease; `end_frame` consumes the lease
//! and swaps the slots, so at most two frames of work are ever in
//! flight.
use vstd::prelude::*;
use crate::spec_align;
use crate::error::RenderError;
use crate::drop_list::DropList;
use crate::drop_list::PurgeList;
use crate::uniforms::UniformStorage;

verus! {

/// Bytes of temporary memory each frame owns.
pub const MAX_TEMP_MEMORY: u32 = 16 * 1024 * 1024;

/// Alignment of the temporary-memory write cursor.
pub const TEMP_ALIGNMENT: u32 = 256;

/// One pipeline stage's transient resources: a temporary byte region
/// with a monotonic write cursor, and the drop list collected while
/// the frame was recorded.
pub struct Frame {
    temp_top: u32,
    temp_memory: Vec<u8>,
    drop_list: DropList,
}

impl Frame {
    /// The write cursor: where the next temporary allocation starts.
    pub closed spec fn temp_top(self) -> int {
        self.temp_top as int
    }

    /// The bytes of the temporary region.
    pub closed spec fn temp_mem(self) -> Seq<u8> {
        self.temp_memory@
    }

    /// The drop list collected for this frame.
    pub closed spec fn drops(self) -> DropList {
        self.drop_list
    }

    /// The cursor stays aligned and inside the region.
    pub closed spec fn wf(self) -> bool {
        &&& self.temp_top <= MAX_TEMP_MEMORY
        &&& (self.temp_top as int) % (TEMP_ALIGNMENT as int) == 0
        &&& self.temp_memory@.len() == MAX_TEMP_MEMORY
    }

    /// A fresh frame: cursor at zero, zeroed region, empty drop list.
    pub fn new() -> (r: Self)
        ensures
            r.wf(),
            r.temp_top() == 0,
            r.drops().is_clear(),
    {
        Frame {
            temp_top: 0,
            temp_memory: vec![0u8; MAX_TEMP_MEMORY as usize],
            drop_list: DropList::new(),
        }
    }

    /// Claims `size` bytes at the cursor and advances it to the next
    /// aligned position, or reports exhaustion without changing
    /// anything.
    fn allocate(&mut self, size: u32) -> (r: Option<u32>)
        requires
            old(self).wf(),
        ensures
            final(self).wf(),
            final(self).temp_mem() == old(self).temp_mem(),
            final(self).drops() == old(self).drops(),
            match r {
                Some(offset) => {
                    &&& offset == old(self).temp_top()
                    &&& offset + size <= MAX_TEMP_MEMORY
                    &&& final(self).temp_top() == spec_align(
                        old(self).temp_top() + size,
                        TEMP_ALIGNMENT as int,
                    )
                },
                None => {
                    &&& spec_align(old(self).temp_top() + size, TEMP_ALIGNMENT as int)
                        > MAX_TEMP_MEMORY
                    &&& final(self).temp_top() == old(self).temp_top()
                },
            },
    {
        proof {
            crate::lemma_spec_align_bounds(
                self.temp_top as int + size as int,
                TEMP_ALIGNMENT as int,
            );
        }
        if size > MAX_TEMP_MEMORY - self.temp_top {
            return None;
        }
        let new_top = crate::align_u32(self.temp_top + size, TEMP_ALIGNMENT);
        if new_top <= MAX_TEMP_MEMORY {
            let offset = self.temp_top;
            self.temp_top = new_top;
            Some(offset)
        } else {
            None
        }
    }

    /// Copies `data` into the frame's temporary region at the cursor
    /// and returns the offset, or the out-of-space error when the
    /// aligned cursor would overrun the region's fixed capacity.
    pub fn push_temp(&mut self, data: &[u8]) -> (r: Result<u32, RenderError>)
        requires
            old(self).wf(),
            data@.len() <= u32::MAX,
        ensures
            final(self).wf(),
            final(self).drops() == old(self).drops(),
            match r {
                Ok(offset) => {
                    &&& offset == old(self).temp_top()
                    &&& offset + data@.len() <= MAX_TEMP_MEMORY
                    &&& final(self).temp_top() == spec_align(
                        old(self).temp_top() + data@.len(),
                        TEMP_ALIGNMENT as int,
                    )
                    &&& final(self).temp_mem() =~= old(self).temp_mem().subrange(0, offset as int)
                        + data@ + old(self).temp_mem().subrange(
                        offset + data@.len(),
                        MAX_TEMP_MEMORY as int,
                    )
                },
                Err(e) => {
                    &&& e == RenderError::OutOfTempMemory
                    &&& spec_align(old(self).temp_top() + data@.len(), TEMP_ALIGNMENT as int)
                        > MAX_TEMP_MEMORY
                    &&& final(self).temp_top() == old(self).temp_top()
                    &&& final(self).temp_mem() == old(self).temp_mem()
                },
            },
    {
        match self.allocate(data.len() as u32) {
            Some(offset) => {
                crate::write_bytes(&mut self.temp_memory, offset as usize, data);
                Ok(offset)
            },
            None => Err(RenderError::OutOfTempMemory),
        }
    }

    /// Resets the frame for reuse: purges its drop list (handing back
    /// what the caller must destroy) and rewinds the temporary-memory
    /// cursor to zero.
    pub fn reset(&mut self, uniforms: &mut UniformStorage) -> (r: PurgeList)
        requires
            old(self).wf(),
            old(uniforms).wf(),
            old(self).drops().purgeable(*old(uniforms)),
        ensures
            final(self).wf(),
            final(self).temp_top() == 0,
            final(self).temp_mem() == old(self).temp_mem(),
            final(self).drops().is_clear(),
            final(uniforms).wf(),
            final(uniforms).mem() == old(uniforms).mem(),
            final(uniforms).num_buckets() == old(uniforms).num_buckets(),
            r.image_views@ == old(self).drops().queued_image_views(),
            r.images@ == old(self).drops().queued_images(),
            r.buffers@ == old(self).drops().queued_buffers(),
            r.memory@ == old(self).drops().queued_memory(),
            r.descriptor_sets@ == old(self).drops().queued_descriptors(),
            forall|k: int|
                0 <= k < old(self).drops().queued_uniforms().len() ==> !final(uniforms).offset_live((#[trigger] old(self).drops().queued_uniforms()[k]) as int),
            forall|o: int|
                old(uniforms).offset_live(o) && !old(self).drops().queued_uniforms().contains(
                    o as usize,
                ) ==> final(uniforms).offset_live(o),
            old(self).drops().is_clear() ==> *final(uniforms) == *old(uniforms),
    {
        let purge = self.drop_list.purge(uniforms);
        self.temp_top = 0;
        purge
    }

    /// Queues device objects retired during this frame's recording.
    pub fn drop_list_mut(&mut self) -> (r: &mut DropList)
        ensures
            *r == old(self).drops(),
            final(self).drops() == *final(r),
            final(self).temp_top() == old(self).temp_top(),
            final(self).temp_mem() == old(self).temp_mem(),
    {
        &mut self.drop_list
    }
}

/// The exclusive lease [`FrameScheduler::begin_frame`] yields:
/// holding it is the sole licence to record into the front frame, and
/// `end_frame` consumes it.
pub struct FrameLease {
    _sealed: (),
}

/// The double-buffered scheduler: two frame slots rotated so that the
/// slot being reset is always the one furthest from GPU completion,
/// plus the device-wide drop list that collects retirements between
/// frames.
pub struct FrameScheduler {
    front: Frame,
    back: Frame,
    current_drop_list: DropList,
    leased: bool,
}

impl FrameScheduler {
    /// The frame slot `begin_frame` will reset and lease next.
    pub closed spec fn front_frame(self) -> Frame {
        self.front
    }

    /// The frame slot whose work may still be on the GPU.
    pub closed spec fn back_frame(self) -> Frame {
        self.back
    }

    /// The device-wide drop list collecting retirements since the
    /// last `begin_frame`.
    pub closed spec fn current_drops(self) -> DropList {
        self.current_drop_list
    }

    /// Whether a lease is outstanding: between `begin_frame` and
    /// `end_frame`.
    pub closed spec fn is_leased(self) -> bool {
        self.leased
    }

    /// Both frame slots are well-formed.
    pub closed spec fn wf(self) -> bool {
        self.front.wf() && self.back.wf()
    }

    /// A fresh scheduler: two fresh frames, nothing queued, no lease
    /// outstanding. `begin_frame` on it never has GPU work to wait
    /// for.
    pub fn new() -> (r: Self)
        ensures
            r.wf(),
            !r.is_leased(),
            r.front_frame().temp_top() == 0,
            r.front_frame().drops().is_clear(),
            r.back_frame().temp_top() == 0,
            r.back_frame().drops().is_clear(),
            r.current_drops().is_clear(),
    {
        FrameScheduler {
            front: Frame::new(),
            back: Frame::new(),
            current_drop_list: DropList::new(),
            leased: false,
        }
    }

    /// Starts recording a frame: resets the front slot (the caller
    /// must first have waited on that slot's completion fences, which
    /// bounds in-flight GPU work to two frames), moves the device-wide
    /// drop list into it, and yields the exclusive lease. The caller
    /// destroys what the returned purge list holds. Beginning a frame
    /// while a lease is outstanding is the fatal usage error this
    /// function's precondition excludes.
    pub fn begin_frame(&mut self, uniforms: &mut UniformStorage) -> (r: (FrameLease, PurgeList))
        requires
            old(self).wf(),
            !old(self).is_leased(),
            old(uniforms).wf(),
            old(self).front_frame().drops().purgeable(*old(uniforms)),
        ensures
            final(self).wf(),
            final(self).is_leased(),
            final(self).front_frame().temp_top() == 0,
            final(self).front_frame().drops() == old(self).current_drops(),
            final(self).front_frame().temp_mem() == old(self).front_frame().temp_mem(),
            final(self).back_frame() == old(self).back_frame(),
            final(self).current_drops().is_clear(),
            final(uniforms).wf(),
            final(uniforms).mem() == old(uniforms).mem(),
            r.1.image_views@ == old(self).front_frame().drops().queued_image_views(),
            r.1.images@ == old(self).front_frame().drops().queued_images(),
            r.1.buffers@ == old(self).front_frame().drops().queued_buffers(),
            r.1.memory@ == old(self).front_frame().drops().queued_memory(),
            r.1.descriptor_sets@ == old(self).front_frame().drops().queued_descriptors(),
            forall|k: int|
                0 <= k < old(self).front_frame().drops().queued_uniforms().len() ==> !final(uniforms).offset_live(
                    (#[trigger] old(self).front_frame().drops().queued_uniforms()[k]) as int,
                ),
            forall|o: int|
                old(uniforms).offset_live(o)
                    && !old(self).front_frame().drops().queued_uniforms().contains(o as usize)
                    ==> final(uniforms).offset_live(o),
            old(self).front_frame().drops().is_clear() ==> *final(uniforms) == *old(uniforms),
    {
        let purge = self.front.reset(uniforms);
        core::mem::swap(self.front.drop_list_mut(), &mut self.current_drop_list);
        self.leased = true;
        (FrameLease { _sealed: () }, purge)
    }

    /// Finishes a frame: consumes the lease and swaps the two slots,
    /// so the next `begin_frame` resets the slot that is furthest
    /// from GPU completion.
    pub fn end_frame(&mut self, lease: FrameLease)
        requires
            old(self).wf(),
            old(self).is_leased(),
        ensures
            final(self).wf(),
            !final(self).is_leased(),
            final(self).front_frame() == old(self).back_frame(),
            final(self).back_frame() == old(self).front_frame(),
            final(self).current_drops() == old(self).current_drops(),
    {
        let FrameLease { _sealed: () } = lease;
        core::mem::swap(&mut self.front, &mut self.back);
        self.leased = false;
    }

    /// Copies `data` into the recording frame's temporary region;
    /// only the lease holder records.
    pub fn push_temp(&mut self, data: &[u8]) -> (r: Result<u32, RenderError>)
        requires
            old(self).wf(),
            old(self).is_leased(),
            data@.len() <= u32::MAX,
        ensures
            final(self).wf(),
            final(self).is_leased(),
            final(self).back_frame() == old(self).back_frame(),
            final(self).current_drops() == old(self).current_drops(),
            final(self).front_frame().drops() == old(self).front_frame().drops(),
            match r {
                Ok(offset) => {
                    &&& offset == old(self).front_frame().temp_top()
                    &&& offset + data@.len() <= MAX_TEMP_MEMORY
                    &&& final(self).front_frame().temp_top() == spec_align(
                        old(self).front_frame().temp_top() + data@.len(),
                        TEMP_ALIGNMENT as int,
                    )
                    &&& final(self).front_frame().temp_mem() =~= old(self).front_frame().temp_mem().subrange(0, offset as int) + data@ + old(self).front_frame().temp_mem().subrange(
                        offset + data@.len(),
                        MAX_TEMP_MEMORY as int,
                    )
                },
                Err(e) => {
                    &&& e == RenderError::OutOfTempMemory
                    &&& spec_align(
                        old(self).front_frame().temp_top() + data@.len(),
                        TEMP_ALIGNMENT as int,
                    ) > MAX_TEMP_MEMORY
                    &&& final(self).front_frame().temp_top() == old(self).front_frame().temp_top()
                    &&& final(self).front_frame().temp_mem() == old(self).front_frame().temp_mem()
                },
            },
    {
        self.front.push_temp(data)
    }

    /// Queues device objects for deferred destruction; any thread
    /// retiring a resource appends here, and the next `begin_frame`
    /// moves the batch into the frame being reset.
    pub fn current_drop_list_mut(&mut self) -> (r: &mut DropList)
        ensures
            *r == old(self).current_drops(),
            final(self).current_drops() == *final(r),
            final(self).front_frame() == old(self).front_frame(),
            final(self).back_frame() == old(self).back_frame(),
            final(self).is_leased() == old(self).is_leased(),
    {
        &mut self.current_drop_list
    }

    /// Whether a lease is outstanding. Callers that cannot track the
    /// lease themselves test this before `begin_frame`, and fail fast
    /// on a frame begun while the previous one is still held.
    pub fn lease_outstanding(&self) -> (r: bool)
        ensures
            r == self.is_leased(),
    {
        self.leased
    }

    /// Device teardown: once the caller has waited for the device to
    /// go fully idle, purges the device-wide drop list and both
    /// frames' drop lists, handing back everything left to destroy.
    /// No lease may be outstanding.
    pub fn shutdown(&mut self, uniforms: &mut UniformStorage) -> (r: (
        PurgeList,
        PurgeList,
        PurgeList,
    ))
        requires
            old(self).wf(),
            !old(self).is_leased(),
            old(uniforms).wf(),
            old(self).current_drops().purgeable(*old(uniforms)),
            old(self).front_frame().drops().purgeable(*old(uniforms)),
            old(self).back_frame().drops().purgeable(*old(uniforms)),
            forall|j: int, k: int|
                0 <= j < old(self).current_drops().queued_uniforms().len() && 0 <= k < old(self).front_frame().drops().queued_uniforms().len() ==> (
                #[trigger] old(self).current_drops().queued_uniforms()[j]) != (#[trigger] old(self).front_frame().drops().queued_uniforms()[k]),
            forall|j: int, k: int|
                0 <= j < old(self).current_drops().queued_uniforms().len() && 0 <= k < old(self).back_frame().drops().queued_uniforms().len() ==> (#[trigger] old(self).current_drops().queued_uniforms()[j]) != (#[trigger] old(self).back_frame().drops().queued_uniforms()[k]),
            forall|j: int, k: int|
                0 <= j < old(self).front_frame().drops().queued_uniforms().len() && 0 <= k < old(self).back_frame().drops().queued_uniforms().len() ==> (#[trigger] old(self).front_frame().drops().queued_uniforms()[j]) != (#[trigger] old(self).back_frame().drops().queued_uniforms()[k]),
        ensures
            final(self).wf(),
            !final(self).is_leased(),
            final(self).current_drops().is_clear(),
            final(self).front_frame().drops().is_clear(),
            final(self).back_frame().drops().is_clear(),
            final(uniforms).wf(),
            final(uniforms).mem() == old(uniforms).mem(),
            r.0.image_views@ == old(self).current_drops().queued_image_views(),
            r.0.images@ == old(self).current_drops().queued_images(),
            r.0.buffers@ == old(self).current_drops().queued_buffers(),
            r.0.memory@ == old(self).current_drops().queued_memory(),
            r.0.descriptor_sets@ == old(self).current_drops().queued_descriptors(),
            r.1.image_views@ == old(self).front_frame().drops().queued_image_views(),
            r.1.images@ == old(self).front_frame().drops().queued_images(),
            r.1.buffers@ == old(self).front_frame().drops().queued_buffers(),
            r.1.memory@ == old(self).front_frame().drops().queued_memory(),
            r.1.descriptor_sets@ == old(self).front_frame().drops().queued_descriptors(),
            r.2.image_views@ == old(self).back_frame().drops().queued_image_views(),
            r.2.images@ == old(self).back_frame().drops().queued_images(),
            r.2.buffers@ == old(self).back_frame().drops().queued_buffers(),
            r.2.memory@ == old(self).back_frame().drops().queued_memory(),
            r.2.descriptor_sets@ == old(self).back_frame().drops().queued_descriptors(),
    {
        let ghost u0 = *uniforms;
        let current = self.current_drop_list.purge(uniforms);
        proof {
            assert forall|k: int|
                0 <= k < self.front.drops().queued_uniforms().len() implies uniforms.offset_live(
                (#[trigger] self.front.drops().queued_uniforms()[k]) as int,
            ) by {
                let o = self.front.drops().queued_uniforms()[k];
                assert(u0.offset_live(o as int));
                if old(self).current_drops().queued_uniforms().contains(o) {
                    let j = choose|j: int|
                        0 <= j < old(self).current_drops().queued_uniforms().len() && old(self).current_drops().queued_uniforms()[j] == o;
                    assert(false);
                }
            };
        }
        let front = self.front.reset(uniforms);
        proof {
            assert forall|k: int|
                0 <= k < self.back.drops().queued_uniforms().len() implies uniforms.offset_live(
                (#[trigger] self.back.drops().queued_uniforms()[k]) as int,
            ) by {
                let o = self.back.drops().queued_uniforms()[k];
                assert(u0.offset_live(o as int));
                if old(self).current_drops().queued_uniforms().contains(o) {
                    let j = choose|j: int|
                        0 <= j < old(self).current_drops().queued_uniforms().len() && old(self).current_drops().queued_uniforms()[j] == o;
                    assert(false);
                }
                if old(self).front_frame().drops().queued_uniforms().contains(o) {
                    let j = choose|j: int|
                        0 <= j < old(self).front_frame().drops().queued_uniforms().len() && old(self).front_frame().drops().queued_uniforms()[j] == o;
                    assert(false);
                }
            };
        }
        let back = self.back.reset(uniforms);
        (current, front, back)
    }
}

} // verus!
