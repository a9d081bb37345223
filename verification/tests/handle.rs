use kiri_core::handle::Handle;
use kiri_core::handle::Pool;

#[test]
fn handle() {
    let handle = Handle::<(), ()>::new(100, 10);
    assert_eq!(100, handle.index());
    assert_eq!(10, handle.generation());
}

#[test]
fn handle_container_push_get() {
    let mut container = Pool::<u32, i32>::new();
    let handle1 = container.push(1, -1);
    let handle2 = container.push(2, -2);
    let handle3 = container.push(3, -3);
    assert_eq!(Some((&1, &-1)), container.get(handle1));
    assert_eq!(Some((&2, &-2)), container.get(handle2));
    assert_eq!(Some((&3, &-3)), container.get(handle3));
    assert_eq!(Some(&2), container.get_hot(handle2));
    assert_eq!(Some(&-3), container.get_cold(handle3));
}

#[test]
fn reuse_slot() {
    let mut container = Pool::<u32, i32>::new();
    let handle = container.push(1, -1);
    container.remove(handle);
    let handle = container.push(2, -2);
    assert_eq!(1, handle.generation());
    assert_eq!(0, handle.index());
    assert_eq!(Some((&2, &-2)), container.get(handle));
}

#[test]
fn old_handle_returns_none() {
    let mut container = Pool::<u32, i32>::new();
    let handle1 = container.push(1, -1);
    assert_eq!(Some((1, -1)), container.remove(handle1));
    let handle2 = container.push(2, -2);
    assert_eq!(None, container.get(handle1));
    assert_eq!(Some((&2, &-2)), container.get(handle2));
}

#[test]
fn mutate_by_handle() {
    let mut container = Pool::<u32, i32>::new();
    let handle = container.push(1, -1);
    assert_eq!(Some((&1, &-1)), container.get(handle));
    assert_eq!(Some((1, -1)), container.replace(handle, 2, -2));
    assert_eq!(Some((&2, &-2)), container.get(handle));
    assert_eq!(Some(2), container.replace_hot(handle, 3));
    assert_eq!(Some(-2), container.replace_cold(handle, -3));
    assert_eq!(Some((&3, &-3)), container.get(handle));
}

#[test]
fn iterate_empty() {
    let container = Pool::<u32, i32>::new();
    let mut it = container.iter();
    let mut cont: Vec<(u32, i32)> = Vec::new();
    while let Some((x, y)) = it.next() {
        cont.push((*x, *y));
    }
    assert!(cont.is_empty());
}

#[test]
fn iterate_full() {
    let mut container = Pool::<u32, i32>::new();
    container.push(1, -1);
    container.push(2, -2);
    container.push(3, -3);
    let mut it = container.iter();
    let mut cont: Vec<(u32, i32)> = Vec::new();
    while let Some((x, y)) = it.next() {
        cont.push((*x, *y));
    }
    assert_eq!([(1u32, -1i32), (2, -2), (3, -3)].to_vec(), cont);
}

#[test]
fn iterate_hole() {
    let mut container = Pool::<u32, i32>::new();
    container.push(1, -1);
    let handle = container.push(2, -2);
    container.push(3, -3);
    container.remove(handle);
    let mut it = container.iter();
    let mut cont: Vec<(u32, i32)> = Vec::new();
    while let Some((x, y)) = it.next() {
        cont.push((*x, *y));
    }
    assert_eq!([(1u32, -1i32), (3, -3)].to_vec(), cont);
}

#[test]
fn drain() {
    let mut container = Pool::<u32, i32>::new();
    container.push(1, -1);
    container.push(2, -2);
    container.push(3, -3);

    let mut d = container.drain();
    let mut cont: Vec<(u32, i32)> = Vec::new();
    while let Some(pair) = d.next() {
        cont.push(pair);
    }
    assert_eq!([(1u32, -1i32), (2, -2), (3, -3)].to_vec(), cont);
    let mut it = container.iter();
    let mut left: Vec<(u32, i32)> = Vec::new();
    while let Some((x, y)) = it.next() {
        left.push((*x, *y));
    }
    assert!(left.is_empty());
}

#[test]
fn invalid_handle_is_not_valid() {
    let handle = Handle::<u32, i32>::invalid();
    assert!(!handle.is_valid());
    let fresh = Handle::<u32, i32>::new(5, 7);
    assert!(fresh.is_valid());
}

#[test]
fn default_handle_is_invalid() {
    let handle: Handle<u32, i32> = Default::default();
    assert!(!handle.is_valid());
}

#[test]
fn stale_handle_stays_invalid_across_reuse() {
    let mut container = Pool::<u32, i32>::new();
    let h1 = container.push(1, -1);
    container.remove(h1);
    let h2 = container.push(2, -2);
    let h3 = container.push(3, -3);
    assert_eq!(None, container.get(h1));
    assert_eq!(None, container.get_hot(h1));
    assert_eq!(None, container.get_cold(h1));
    assert_eq!(None, container.remove(h1));
    assert_eq!(Some((&2, &-2)), container.get(h2));
    assert_eq!(Some((&3, &-3)), container.get(h3));
}

#[test]
fn drain_invalidates_old_handles() {
    let mut container = Pool::<u32, i32>::new();
    let h1 = container.push(1, -1);
    let mut d = container.drain();
    while d.next().is_some() {}
    assert_eq!(None, container.get(h1));
    let h2 = container.push(9, -9);
    assert_eq!(None, container.get(h1));
    assert_eq!(Some((&9, &-9)), container.get(h2));
}

#[test]
fn free_slots_are_recycled_lifo() {
    let mut container = Pool::<u32, i32>::new();
    let h0 = container.push(10, -10);
    let h1 = container.push(11, -11);
    let h2 = container.push(12, -12);
    container.remove(h0);
    container.remove(h2);
    let h3 = container.push(13, -13);
    assert_eq!(2, h3.index());
    let h4 = container.push(14, -14);
    assert_eq!(0, h4.index());
    assert_eq!(Some((&11, &-11)), container.get(h1));
}

#[test]
fn mutable_accessors_update_in_place() {
    let mut container = Pool::<u32, i32>::new();
    let h = container.push(1, -1);
    if let Some(hot) = container.get_hot_mut(h) {
        *hot = 42;
    }
    if let Some(cold) = container.get_cold_mut(h) {
        *cold = -42;
    }
    assert_eq!(Some((&42, &-42)), container.get(h));
    assert_eq!(None, container.get_hot_mut(Handle::invalid()));
    assert_eq!(None, container.get_cold_mut(Handle::invalid()));
}
