use kiri_core::error::RenderError;
use kiri_core::uniforms::Bucket;
use kiri_core::uniforms::UniformStorage;
use kiri_core::uniforms::BUCKET_SIZE;

#[test]
fn bucket_lifecycle() {
    let mut bucket = Bucket::default();
    assert!(!bucket.is_suitable(100));
    bucket.init(256, 512);
    assert!(bucket.is_suitable(300));
    assert!(bucket.is_suitable(512));
    assert!(!bucket.is_suitable(256));
    assert!(!bucket.is_suitable(513));
    let a = bucket.allocate().unwrap();
    let b = bucket.allocate().unwrap();
    assert_ne!(a, b);
    assert_eq!(0, a % 512);
    assert_eq!(0, b % 512);
    assert!(bucket.dealloc(b));
    assert!(!bucket.dealloc(a));
    bucket.release();
    assert!(!bucket.is_suitable(300));
}

#[test]
fn push_lands_in_matching_size_class() {
    let mut storage = UniformStorage::new();
    // a payload whose size falls in (256, 512] is served by a bucket
    // whose stride is 512: successive pushes are 512 bytes apart
    let first = storage.push(&[7u8; 300]).unwrap();
    let second = storage.push(&[8u8; 511]).unwrap();
    assert_eq!(512, second - first);
    // a different size class opens a different bucket span
    let third = storage.push(&[9u8; 100]).unwrap();
    assert_eq!(BUCKET_SIZE, third - first);
}

#[test]
fn released_bucket_span_is_reused_by_other_class() {
    let mut storage = UniformStorage::new();
    let a = storage.push(&[1u8; 400]).unwrap();
    let b = storage.push(&[2u8; 400]).unwrap();
    // empty the 512-stride bucket completely
    storage.dealloc(a);
    storage.dealloc(b);
    // a push for a different size class may reuse the same byte range
    let c = storage.push(&[3u8; 2000]).unwrap();
    assert_eq!(a, c);
}

#[test]
fn dealloc_keeps_other_payloads() {
    let mut storage = UniformStorage::new();
    let a = storage.push(&[4u8; 300]).unwrap();
    let b = storage.push(&[5u8; 300]).unwrap();
    storage.dealloc(a);
    // the freed block is handed out again before a new one
    let c = storage.push(&[6u8; 300]).unwrap();
    assert_eq!(a, c);
    assert_ne!(b, c);
}

#[test]
fn push_when_every_bucket_slot_is_committed() {
    let mut storage = UniformStorage::new();
    // commit every bucket slot to the largest size class and fill it:
    // each 16384-stride bucket holds 65535 / 16384 = 3 blocks
    let mut count = 0usize;
    loop {
        match storage.push(&[0u8; 16000]) {
            Ok(_) => count += 1,
            Err(e) => {
                assert_eq!(RenderError::OutOfAllocatedSpace, e);
                break;
            }
        }
    }
    assert_eq!(128 * 3, count);
    // other classes cannot be served either: every slot is committed
    match storage.push(&[0u8; 100]) {
        Err(RenderError::OutOfAllocatedSpace) => {}
        _ => panic!("expected the slab to be exhausted"),
    }
}
