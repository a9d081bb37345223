use kiri_core::drop_list::DropList;
use kiri_core::error::RenderError;
use kiri_core::frame::Frame;
use kiri_core::frame::FrameScheduler;
use kiri_core::uniforms::UniformStorage;

#[test]
fn purge_of_empty_list_is_a_no_op() {
    let mut uniforms = UniformStorage::new();
    let mut list = DropList::new();
    let purge = list.purge(&mut uniforms);
    assert!(purge.image_views.is_empty());
    assert!(purge.images.is_empty());
    assert!(purge.buffers.is_empty());
    assert!(purge.memory.is_empty());
    assert!(purge.descriptor_sets.is_empty());
    // a second purge destroys nothing either
    let purge = list.purge(&mut uniforms);
    assert!(purge.images.is_empty());
}

#[test]
fn purge_hands_back_everything_once() {
    let mut uniforms = UniformStorage::new();
    let offset = uniforms.push(&[1u8; 100]).unwrap();
    let mut list = DropList::new();
    list.drop_image(11);
    list.drop_image(12);
    list.drop_image_view(21);
    list.drop_buffer(31);
    list.free_memory(41);
    list.free_descriptor_set(51);
    list.free_uniform(offset);
    let purge = list.purge(&mut uniforms);
    assert_eq!(vec![11, 12], purge.images);
    assert_eq!(vec![21], purge.image_views);
    assert_eq!(vec![31], purge.buffers);
    assert_eq!(vec![41], purge.memory);
    assert_eq!(vec![51], purge.descriptor_sets);
    // the uniform offset went back to the slab: the next push of the
    // same class reuses it
    assert_eq!(offset, uniforms.push(&[2u8; 100]).unwrap());
    // after the purge no queue retains a reference
    let purge = list.purge(&mut uniforms);
    assert!(purge.images.is_empty());
    assert!(purge.image_views.is_empty());
}

#[test]
fn frame_push_temp_is_bump_allocated() {
    let mut frame = Frame::new();
    let a = frame.push_temp(&[1u8; 100]).unwrap();
    let b = frame.push_temp(&[2u8; 300]).unwrap();
    let c = frame.push_temp(&[3u8; 1]).unwrap();
    assert_eq!(0, a);
    assert_eq!(256, b);
    assert_eq!(768, c);
}

#[test]
fn frame_push_temp_reports_exhaustion() {
    let mut frame = Frame::new();
    let big = vec![0u8; 16 * 1024 * 1024];
    assert_eq!(Ok(0), frame.push_temp(&big));
    assert_eq!(Err(RenderError::OutOfTempMemory), frame.push_temp(&[1u8]));
}

#[test]
fn begin_frame_on_fresh_scheduler_succeeds_immediately() {
    let mut uniforms = UniformStorage::new();
    let mut scheduler = FrameScheduler::new();
    // fresh frames have no outstanding GPU work, so there is nothing
    // to wait for and nothing to destroy
    let (lease, purge) = scheduler.begin_frame(&mut uniforms);
    assert!(purge.images.is_empty());
    assert!(purge.buffers.is_empty());
    scheduler.end_frame(lease);
    let (lease, purge) = scheduler.begin_frame(&mut uniforms);
    assert!(purge.images.is_empty());
    scheduler.end_frame(lease);
}

#[test]
fn retirements_reach_the_frame_two_begins_later() {
    let mut uniforms = UniformStorage::new();
    let mut scheduler = FrameScheduler::new();
    scheduler.current_drop_list_mut().drop_image(77);
    scheduler.current_drop_list_mut().drop_buffer(88);

    // the first begin_frame moves the retirements into the recording
    // frame; nothing is destroyed yet
    let (lease, purge) = scheduler.begin_frame(&mut uniforms);
    assert!(purge.images.is_empty());
    assert!(purge.buffers.is_empty());
    scheduler.end_frame(lease);

    // one frame later the other slot is reset: still nothing
    let (lease, purge) = scheduler.begin_frame(&mut uniforms);
    assert!(purge.images.is_empty());
    scheduler.end_frame(lease);

    // two frames later the slot holding the batch comes around and
    // its contents are handed back for destruction
    let (lease, purge) = scheduler.begin_frame(&mut uniforms);
    assert_eq!(vec![77], purge.images);
    assert_eq!(vec![88], purge.buffers);
    scheduler.end_frame(lease);
}

#[test]
fn push_temp_resets_every_other_frame() {
    let mut uniforms = UniformStorage::new();
    let mut scheduler = FrameScheduler::new();
    let (lease, _) = scheduler.begin_frame(&mut uniforms);
    assert_eq!(Ok(0), scheduler.push_temp(&[1u8; 10]));
    assert_eq!(Ok(256), scheduler.push_temp(&[2u8; 10]));
    scheduler.end_frame(lease);
    let (lease, _) = scheduler.begin_frame(&mut uniforms);
    // the other slot: its cursor starts at zero
    assert_eq!(Ok(0), scheduler.push_temp(&[3u8; 10]));
    scheduler.end_frame(lease);
}

#[test]
fn shutdown_purges_every_batch() {
    let mut uniforms = UniformStorage::new();
    let mut scheduler = FrameScheduler::new();
    scheduler.current_drop_list_mut().drop_image(1);
    let (lease, _) = scheduler.begin_frame(&mut uniforms);
    scheduler.end_frame(lease);
    scheduler.current_drop_list_mut().drop_image(2);
    let (current, front, back) = scheduler.shutdown(&mut uniforms);
    assert_eq!(vec![2], current.images);
    // the batch with image 1 sits in the slot furthest from reuse
    let mut purged: Vec<u64> = Vec::new();
    purged.extend(front.images.iter());
    purged.extend(back.images.iter());
    assert_eq!(vec![1], purged);
}
