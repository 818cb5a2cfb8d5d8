use lib::utils::pool::{Handle, Pool};

#[test]
fn spawned_object_is_reachable() {
    let mut pool: Pool<u32> = Pool::new();
    let a = pool.spawn(10);
    let b = pool.spawn(20);
    assert_eq!(a, Handle::new(0, 1));
    assert_eq!(b, Handle::new(1, 1));
    assert_eq!(pool.borrow(a), Some(&10));
    assert_eq!(pool.borrow(b), Some(&20));
    assert!(pool.is_valid_handle(a));
    assert_eq!(pool.get_capacity(), 2);
}

#[test]
fn none_handle_reaches_nothing() {
    let mut pool: Pool<u32> = Pool::new();
    pool.spawn(10);
    assert!(Handle::none().is_none());
    assert!(pool.borrow(Handle::none()).is_none());
    assert!(!pool.is_valid_handle(Handle::none()));
}

#[test]
fn freed_slot_is_reused_with_next_generation() {
    let mut pool: Pool<u32> = Pool::new();
    let a = pool.spawn(10);
    let b = pool.spawn(20);
    pool.free(a);
    assert!(pool.borrow(a).is_none());
    assert_eq!(pool.borrow(b), Some(&20));
    let c = pool.spawn(30);
    assert_eq!(c, Handle::new(0, 2));
    assert!(pool.borrow(a).is_none());
    assert_eq!(pool.borrow(c), Some(&30));
    assert_eq!(pool.get_capacity(), 2);
}

#[test]
fn freeing_twice_does_not_hand_out_a_slot_twice() {
    let mut pool: Pool<u32> = Pool::new();
    let a = pool.spawn(10);
    pool.free(a);
    pool.free(a);
    let b = pool.spawn(20);
    let c = pool.spawn(30);
    assert_ne!(b.index, c.index);
    assert_eq!(pool.borrow(b), Some(&20));
    assert_eq!(pool.borrow(c), Some(&30));
}

#[test]
fn freed_slots_are_reused_last_freed_first() {
    let mut pool: Pool<u32> = Pool::new();
    let a = pool.spawn(1);
    let b = pool.spawn(2);
    pool.free(a);
    pool.free(b);
    assert_eq!(pool.spawn(3).index, b.index);
    assert_eq!(pool.spawn(4).index, a.index);
}

#[test]
fn borrow_mut_changes_the_object() {
    let mut pool: Pool<u32> = Pool::new();
    let a = pool.spawn(10);
    if let Some(x) = pool.borrow_mut(a) {
        *x = 11;
    }
    assert_eq!(pool.borrow(a), Some(&11));
    assert!(pool.borrow_mut(Handle::new(0, 2)).is_none());
}

#[test]
fn handle_at_names_live_slots() {
    let mut pool: Pool<u32> = Pool::new();
    let a = pool.spawn(10);
    let b = pool.spawn(20);
    pool.free(a);
    assert_eq!(pool.handle_at(0), None);
    assert_eq!(pool.handle_at(1), Some(b));
    assert_eq!(pool.handle_at(2), None);
}

#[test]
fn handle_keys_differ() {
    assert_eq!(Handle::new(1, 2).key(), (1u64 << 32) + 2);
    assert_ne!(Handle::new(1, 2).key(), Handle::new(2, 1).key());
}
