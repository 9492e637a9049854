use hummock_time_travel::cache::{CacheItem, CacheMark, SmallHotCache};

#[test]
fn small_cache_insert_evict_fifo() {
    let mut c: SmallHotCache<u64, String> = SmallHotCache::new(10);
    assert_eq!(c.count(), 0);
    assert!(!c.is_full());
    c.insert(Box::new(CacheItem::new(1, "a".to_string(), 4)));
    c.insert(Box::new(CacheItem::new(2, "b".to_string(), 5)));
    assert_eq!(c.count(), 2);
    assert_eq!(c.size(), 9);
    assert_eq!(c.get_size_counter(), 9);
    assert!(!c.is_full());
    c.insert(Box::new(CacheItem::new(3, "c".to_string(), 2)));
    assert!(c.is_full());
    let first = c.evict().unwrap();
    assert_eq!(first.key, 1);
    assert_eq!(first.value, "a");
    assert_eq!(first.mark, CacheMark::Unmarked);
    assert_eq!(c.size(), 7);
    assert!(!c.is_full());
    assert_eq!(c.evict().unwrap().key, 2);
    assert_eq!(c.evict().unwrap().key, 3);
    assert!(c.evict().is_none());
    assert_eq!(c.size(), 0);
}

#[test]
fn small_cache_clear() {
    let mut c: SmallHotCache<u32, u32> = SmallHotCache::new(1);
    c.insert(Box::new(CacheItem::new(1, 1, 3)));
    assert!(c.is_full());
    c.clear();
    assert_eq!(c.count(), 0);
    assert_eq!(c.size(), 0);
    assert!(c.evict().is_none());
}

#[test]
fn cache_item_marks() {
    let mut item = CacheItem::new(1u8, 2u8, 3);
    assert_eq!(item.cost(), 3);
    item.mark_small();
    assert_eq!(item.mark, CacheMark::Small);
    item.unmark();
    assert_eq!(item.mark, CacheMark::Unmarked);
}
