use s3fifo::GhostFIFOCache;

#[test]
fn ghost_starts_empty() {
    let ghost = GhostFIFOCache::new(4);
    assert_eq!(ghost.len(), 0);
    assert_eq!(ghost.capacity(), 4);
    assert!(!ghost.contains(0));
    assert!(!ghost.contains(7));
}

#[test]
fn ghost_insert_is_idempotent() {
    let mut ghost = GhostFIFOCache::new(3);
    ghost.insert(5);
    assert!(ghost.contains(5));
    assert_eq!(ghost.len(), 1);
    ghost.insert(5);
    ghost.insert(5);
    assert!(ghost.contains(5));
    assert_eq!(ghost.len(), 1);
    ghost.insert(6);
    ghost.insert(7);
    // full: a hash that is there still changes nothing
    ghost.insert(5);
    assert_eq!(ghost.len(), 3);
    assert!(ghost.contains(5));
    assert!(ghost.contains(6));
    assert!(ghost.contains(7));
}

#[test]
fn ghost_forgets_the_oldest_first() {
    let mut ghost = GhostFIFOCache::new(3);
    for h in 1..=3u64 {
        ghost.insert(h);
    }
    ghost.insert(4);
    assert_eq!(ghost.len(), 3);
    assert!(!ghost.contains(1));
    assert!(ghost.contains(2));
    assert!(ghost.contains(3));
    assert!(ghost.contains(4));
    ghost.insert(1);
    assert!(!ghost.contains(2));
    assert!(ghost.contains(3));
    assert!(ghost.contains(4));
    assert!(ghost.contains(1));
    assert_eq!(ghost.len(), 3);
}

#[test]
fn ghost_without_room_remembers_nothing() {
    let mut ghost = GhostFIFOCache::new(0);
    for h in 0..10u64 {
        ghost.insert(h);
        assert!(!ghost.contains(h));
        assert_eq!(ghost.len(), 0);
    }
}

#[test]
fn ghost_of_one() {
    let mut ghost = GhostFIFOCache::new(1);
    ghost.insert(u64::MAX);
    assert!(ghost.contains(u64::MAX));
    ghost.insert(0);
    assert!(!ghost.contains(u64::MAX));
    assert!(ghost.contains(0));
    assert_eq!(ghost.len(), 1);
}

#[test]
fn ghost_long_run_keeps_the_last_hashes() {
    let mut ghost = GhostFIFOCache::new(64);
    for h in 0..10_000u64 {
        ghost.insert(h.wrapping_mul(0x9E37_79B9_7F4A_7C15));
        assert!(ghost.len() <= 64);
    }
    assert_eq!(ghost.len(), 64);
    for h in 0..10_000u64 {
        let hash = h.wrapping_mul(0x9E37_79B9_7F4A_7C15);
        assert_eq!(ghost.contains(hash), h >= 10_000 - 64);
    }
}
