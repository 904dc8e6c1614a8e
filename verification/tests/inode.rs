use xdvdfs::inode::{INodeCache, INodeLookupResult};

#[test]
fn test_inode_cache_assigns_from_two() {
    let mut cache: INodeCache<String> = INodeCache::default();
    assert_eq!(cache.lookup_inode(0), None);
    assert_eq!(cache.lookup_inode(2), None);
    assert_eq!(cache.get_or_assign_inode(&"a".to_string()), 2);
    assert_eq!(cache.get_or_assign_inode(&"b".to_string()), 3);
    assert_eq!(cache.get_or_assign_inode(&"a".to_string()), 2);
    assert_eq!(cache.get_or_assign_inode(&"c".to_string()), 4);
    assert_eq!(cache.lookup_inode(1), None);
    assert_eq!(cache.lookup_inode(2), Some(&"a".to_string()));
    assert_eq!(cache.lookup_inode(3), Some(&"b".to_string()));
    assert_eq!(cache.lookup_inode(4), Some(&"c".to_string()));
    assert_eq!(cache.lookup_inode(5), None);
}

#[test]
fn test_inode_cache_keeps_inode() {
    let mut cache: INodeCache<u32> = INodeCache::default();
    let first = cache.get_or_assign_inode(&7);
    for v in 0..50u32 {
        cache.get_or_assign_inode(&v);
    }
    assert_eq!(cache.get_or_assign_inode(&7), first);
    assert_eq!(cache.lookup_inode(first), Some(&7));
}

#[test]
fn test_inode_lookup_result_some() {
    let v: INodeLookupResult<u32> = INodeLookupResult::Value(5);
    assert_eq!(v.some(|x| x * 2, || 0), Some(10));
    let r: INodeLookupResult<u32> = INodeLookupResult::RootEntry;
    assert_eq!(r.some(|x| x * 2, || 1), Some(1));
    let n: INodeLookupResult<u32> = INodeLookupResult::NoEntry;
    assert_eq!(n.some(|x| x * 2, || 1), None);
}
