use membridge::rwlock::{ShmRwLock, RWLOCK_SIZE};

#[test]
fn lock_header_is_four_bytes() {
    assert_eq!(RWLOCK_SIZE, 4);
}

#[test]
fn init_unlocks() {
    let mut l = ShmRwLock::from_word(-1);
    l.init();
    assert_eq!(l.word(), 0);
    assert_eq!(l.reader_count(), 0);
    assert!(!l.is_write_locked());
}

#[test]
fn readers_share_the_lock() {
    let mut l = ShmRwLock::from_word(0);
    assert!(l.read_lock());
    assert!(l.read_lock());
    assert_eq!(l.word(), 2);
    assert_eq!(l.reader_count(), 2);
    assert!(!l.is_write_locked());
    l.read_unlock();
    assert_eq!(l.reader_count(), 1);
    l.read_unlock();
    assert_eq!(l.word(), 0);
}

#[test]
fn writer_waits_for_readers() {
    let mut l = ShmRwLock::from_word(0);
    assert!(l.read_lock());
    assert!(!l.write_lock());
    assert_eq!(l.word(), 1);
    l.read_unlock();
    assert!(l.write_lock());
    assert_eq!(l.word(), -1);
    assert!(l.is_write_locked());
    assert_eq!(l.reader_count(), 0);
}

#[test]
fn readers_wait_for_writer() {
    let mut l = ShmRwLock::from_word(0);
    assert!(l.write_lock());
    assert!(!l.read_lock());
    assert!(!l.write_lock());
    assert_eq!(l.word(), -1);
    l.write_unlock();
    assert_eq!(l.word(), 0);
    assert!(l.read_lock());
}

#[test]
fn read_hold_then_release_restores_word() {
    for w in [0, 1, 7, 1000] {
        let mut l = ShmRwLock::from_word(w);
        assert!(l.read_lock());
        l.read_unlock();
        assert_eq!(l.word(), w);
    }
}

#[test]
fn read_unlock_wraps_like_atomic_subtraction() {
    let mut l = ShmRwLock::from_word(i32::MIN);
    l.read_unlock();
    assert_eq!(l.word(), i32::MAX);
    let mut l = ShmRwLock::from_word(0);
    l.read_unlock();
    assert_eq!(l.word(), -1);
    assert!(l.is_write_locked());
}

#[test]
fn word_counts_the_holders_through_a_run() {
    let mut l = ShmRwLock::from_word(7);
    l.init();
    assert!(l.read_lock());
    assert!(l.read_lock());
    assert!(!l.write_lock());
    assert_eq!(l.reader_count(), 2);
    l.read_unlock();
    l.read_unlock();
    assert!(l.write_lock());
    assert!(l.is_write_locked());
    assert_eq!(l.reader_count(), 0);
    assert!(!l.read_lock());
    assert!(!l.write_lock());
    l.write_unlock();
    assert_eq!(l.word(), 0);
}
