use rcore_os::block_cache::{BlockCacheManager, BlockDevice, BLOCK_CACHE_SIZE, BLOCK_SIZE};

#[test]
fn writes_stay_in_cache_until_synced() {
    let mut dev = BlockDevice::new(4);
    let mut cache = BlockCacheManager::new();
    cache.modify(&mut dev, 2, 10, &[1, 2, 3]);
    assert_eq!(cache.read(&mut dev, 2, 9, 5), vec![0, 1, 2, 3, 0]);
    assert_eq!(&dev.blocks[2][10..13], &[0, 0, 0]);
    cache.sync_all(&mut dev);
    assert_eq!(&dev.blocks[2][10..13], &[1, 2, 3]);
    // a fresh mount reads what was written
    let mut fresh = BlockCacheManager::new();
    assert_eq!(fresh.read(&mut dev, 2, 10, 3), vec![1, 2, 3]);
}

#[test]
fn eviction_writes_back_changed_blocks() {
    let n = BLOCK_CACHE_SIZE + 2;
    let mut dev = BlockDevice::new(n);
    let mut cache = BlockCacheManager::new();
    cache.modify(&mut dev, 0, 0, &[7; 4]);
    for id in 1..n {
        cache.read(&mut dev, id, 0, 1);
    }
    assert!(cache.queue.len() <= BLOCK_CACHE_SIZE);
    assert!(cache.queue.iter().all(|e| e.block_id != 0));
    assert_eq!(&dev.blocks[0][..4], &[7; 4]);
    assert_eq!(cache.read(&mut dev, 0, 0, 5), vec![7, 7, 7, 7, 0]);
}

#[test]
fn whole_block_round_trip() {
    let mut dev = BlockDevice::new(1);
    let mut cache = BlockCacheManager::new();
    let data: Vec<u8> = (0..BLOCK_SIZE).map(|i| (i * 7 % 256) as u8).collect();
    cache.modify(&mut dev, 0, 0, &data);
    assert_eq!(cache.read(&mut dev, 0, 0, BLOCK_SIZE), data);
    assert_eq!(cache.get_block_cache(&mut dev, 0), 0);
}
