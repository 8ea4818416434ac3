use runloop::spin_lock::SpinLock;

#[test]
fn try_lock_is_exclusive() {
    let l = SpinLock::new(7u32);
    let g = l.try_lock().expect("free lock");
    assert_eq!(*g, 7);
    assert!(l.try_lock().is_none());
    g.unlock();
    let g2 = l.try_lock().expect("free again");
    assert_eq!(*g2, 7);
    g2.unlock();
}

#[test]
fn default_lock_is_free() {
    let l: SpinLock<u8> = Default::default();
    let g = l.try_lock().unwrap();
    assert_eq!(*g, 0);
    g.unlock();
}
