use rcore_fs::block_cache::{BlockCache, BlockDevice, MemBlockDevice};

fn block(byte: u8) -> Vec<u8> {
    vec![byte; 16]
}

#[test]
fn cache_read_after_write() {
    let mut cache = BlockCache::new(MemBlockDevice::new(4), 2);
    let mut buf = vec![9u8; 20];
    cache.read_at(7, &mut buf).unwrap();
    assert_eq!(&buf[..16], &block(0)[..]);
    assert_eq!(&buf[16..], &[9u8; 4][..]);
    cache.write_at(7, &block(1)).unwrap();
    cache.read_at(7, &mut buf).unwrap();
    assert_eq!(&buf[..16], &block(1)[..]);
}

#[test]
fn cache_eviction_keeps_data() {
    let mut cache = BlockCache::new(MemBlockDevice::new(4), 2);
    cache.write_at(1, &block(1)).unwrap();
    cache.write_at(2, &block(2)).unwrap();
    cache.write_at(3, &block(3)).unwrap();
    let mut buf = vec![0u8; 16];
    for id in 1..4usize {
        cache.read_at(id, &mut buf).unwrap();
        assert_eq!(buf, block(id as u8));
    }
}

#[test]
fn cache_sync_writes_back() {
    let mut cache = BlockCache::new(MemBlockDevice::new(4), 3);
    cache.write_at(0, &block(5)).unwrap();
    cache.write_at(9, &block(6)).unwrap();
    let mut device = cache.into_device();
    let mut buf = vec![0u8; 16];
    device.read_at(0, &mut buf).unwrap();
    assert_eq!(buf, block(0));

    let mut cache = BlockCache::new(device, 3);
    cache.write_at(0, &block(5)).unwrap();
    cache.write_at(9, &block(6)).unwrap();
    cache.sync().unwrap();
    let mut device = cache.into_device();
    device.read_at(0, &mut buf).unwrap();
    assert_eq!(buf, block(5));
    device.read_at(9, &mut buf).unwrap();
    assert_eq!(buf, block(6));
    assert_eq!(device.block_size(), 16);
}
