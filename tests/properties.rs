use extendible_hashing::{BucketPage, DirectoryPage, ExtendibleHashing};
use std::collections::hash_map::DefaultHasher;
use std::hash::{Hash, Hasher};

fn std_hash(key: &String) -> u64 {
    let mut hasher = DefaultHasher::new();
    key.hash(&mut hasher);
    hasher.finish()
}

fn check_capacity(directory_page: &DirectoryPage<String, String>) {
    assert_eq!(directory_page.buckets.len(), 1 << directory_page.global_depth);
    for j in 0..directory_page.buckets.len() {
        let page = &directory_page.pages[directory_page.buckets[j]];
        assert!(page.size <= 1 << page.depth);
        assert!(page.depth <= directory_page.global_depth);
        assert_eq!(page.elems.len(), 1 << page.depth);
    }
}

#[test]
fn scenario_shard_depth_five() {
    let mut e_h: ExtendibleHashing<String, String> = ExtendibleHashing::new(5);
    for i in 1..=10000 {
        e_h.put(format!("key{}", i), format!("value{}", i));
    }
    assert_eq!(e_h.len(), 10000);
    assert_eq!(e_h.get(&format!("key5000")), Some(format!("value5000")));
    assert_eq!(e_h.get(&format!("key20000")), None);
    for i in 1..=5000 {
        e_h.del(&format!("key{}", i));
    }
    assert_eq!(e_h.len(), 5000);
    assert!(!e_h.contain(&format!("key1")));
    assert!(e_h.contain(&format!("key6000")));
    for i in 1..=5000 {
        e_h.put(format!("key{}", i), format!("value{}", i));
    }
    assert_eq!(e_h.len(), 10000);
    for i in 1..=10000 {
        assert_eq!(e_h.get(&format!("key{}", i)), Some(format!("value{}", i)));
    }
}

#[test]
fn overwrite_keeps_len() {
    let mut e_h: ExtendibleHashing<String, String> = ExtendibleHashing::new(3);
    e_h.put(format!("k"), format!("v1"));
    assert_eq!(e_h.len(), 1);
    e_h.put(format!("k"), format!("v2"));
    assert_eq!(e_h.len(), 1);
    assert_eq!(e_h.get(&format!("k")), Some(format!("v2")));

    let mut directory_page: DirectoryPage<String, String> = DirectoryPage::default();
    let key = format!("k");
    directory_page.put(key.clone(), format!("v1"), std_hash(&key));
    directory_page.put(key.clone(), format!("v2"), std_hash(&key));
    assert_eq!(directory_page.len(), 1);
    assert_eq!(directory_page.get(&key, std_hash(&key)), Some(format!("v2")));
}

#[test]
fn delete_twice() {
    let mut e_h: ExtendibleHashing<String, String> = ExtendibleHashing::default();
    e_h.put(format!("a"), format!("1"));
    e_h.put(format!("b"), format!("2"));
    assert_eq!(e_h.del(&format!("a")), Some((format!("a"), format!("1"))));
    assert_eq!(e_h.len(), 1);
    assert_eq!(e_h.del(&format!("a")), None);
    assert_eq!(e_h.len(), 1);
    assert_eq!(e_h.del(&format!("missing")), None);
    assert_eq!(e_h.len(), 1);
}

#[test]
fn len_matches_contained_keys() {
    let mut e_h: ExtendibleHashing<String, String> = ExtendibleHashing::new(2);
    for i in 0..3000 {
        e_h.put(format!("key{}", i), format!("value{}", i));
        if i % 3 == 0 {
            e_h.del(&format!("key{}", i / 2));
        }
    }
    let mut contained = 0;
    for i in 0..3000 {
        if e_h.contain(&format!("key{}", i)) {
            contained += 1;
        }
    }
    assert_eq!(e_h.len(), contained);
}

#[test]
fn split_then_merge_keeps_data() {
    let mut directory_page: DirectoryPage<String, String> = DirectoryPage::default();
    for i in 0..4000 {
        let key = format!("key{}", i);
        directory_page.put(key.clone(), format!("value{}", i), std_hash(&key));
    }
    assert!(directory_page.global_depth > 3);
    check_capacity(&directory_page);
    for i in 0..3990 {
        let key = format!("key{}", i);
        assert_eq!(
            directory_page.del(&key, std_hash(&key)),
            Some((key.clone(), format!("value{}", i)))
        );
    }
    check_capacity(&directory_page);
    assert_eq!(directory_page.len(), 10);
    for i in 0..4000 {
        let key = format!("key{}", i);
        if i < 3990 {
            assert!(!directory_page.contain(&key, std_hash(&key)));
        } else {
            assert_eq!(directory_page.get(&key, std_hash(&key)), Some(format!("value{}", i)));
        }
    }
}

#[test]
fn capacity_invariant_holds() {
    let mut directory_page: DirectoryPage<String, String> = DirectoryPage::new(1);
    for i in 0..2000 {
        let key = format!("k{}", i);
        directory_page.put(key.clone(), format!("v{}", i), std_hash(&key));
        if i % 100 == 0 {
            check_capacity(&directory_page);
        }
    }
    for i in 0..2000 {
        let key = format!("k{}", i);
        directory_page.del(&key, std_hash(&key));
        if i % 100 == 0 {
            check_capacity(&directory_page);
        }
    }
    assert_eq!(directory_page.len(), 0);
}

#[test]
fn shrink_after_last_delete() {
    let mut directory_page: DirectoryPage<String, String> = DirectoryPage::new(8);
    let key = format!("only");
    directory_page.put(key.clone(), format!("v"), std_hash(&key));
    assert_eq!(directory_page.global_depth, 8);
    assert_eq!(directory_page.del(&key, std_hash(&key)), Some((key.clone(), format!("v"))));
    assert_eq!(directory_page.global_depth, 7);
    assert_eq!(directory_page.buckets.len(), 128);
}

#[test]
fn full_bucket_hands_entry_back() {
    let mut bucket_page: BucketPage<String, String> = BucketPage::new(0);
    let first = format!("first");
    assert!(bucket_page.put(first.clone(), format!("1"), std_hash(&first)).is_ok());
    assert!(bucket_page.is_full());
    let second = format!("second");
    let h = std_hash(&second);
    assert_eq!(
        bucket_page.put(second.clone(), format!("2"), h),
        Err((second.clone(), format!("2"), h))
    );
    assert!(bucket_page.put(first.clone(), format!("3"), std_hash(&first)).is_ok());
    assert_eq!(bucket_page.get(&first, std_hash(&first)), Some(&format!("3")));
    assert_eq!(bucket_page.size, 1);
}

#[test]
fn bucket_shrink_packs_entries() {
    let mut bucket_page: BucketPage<String, String> = BucketPage::new(3);
    for i in 0..8 {
        let key = format!("key{}", i);
        assert!(bucket_page.put(key.clone(), format!("value{}", i), std_hash(&key)).is_ok());
    }
    for i in 0..6 {
        let key = format!("key{}", i);
        assert!(bucket_page.del(&key, std_hash(&key)).is_some());
    }
    bucket_page.shrink();
    assert_eq!(bucket_page.depth, 2);
    assert_eq!(bucket_page.elems.len(), 4);
    assert_eq!(bucket_page.size, 2);
    for i in 6..8 {
        let key = format!("key{}", i);
        assert_eq!(bucket_page.get(&key, std_hash(&key)), Some(&format!("value{}", i)));
    }
}

#[test]
fn hash_code_is_std_default_hasher() {
    let key = format!("key1");
    assert_eq!(DirectoryPage::<String, String>::hash_code(&key), std_hash(&key));
    assert_ne!(
        DirectoryPage::<String, String>::hash_code(&format!("key1")),
        DirectoryPage::<String, String>::hash_code(&format!("key2"))
    );
}

#[test]
fn zero_shard_depth_works() {
    let mut e_h: ExtendibleHashing<String, String> = ExtendibleHashing::new(0);
    assert_eq!(e_h.depth(), 0);
    for i in 0..500 {
        e_h.put(format!("key{}", i), format!("value{}", i));
    }
    assert_eq!(e_h.len(), 500);
    assert_eq!(e_h.get(&format!("key499")), Some(format!("value499")));
    assert!(e_h.is_empty() == false);
}

#[test]
fn merged_buckets_are_reused() {
    let mut directory_page: DirectoryPage<String, String> = DirectoryPage::default();
    for i in 0..4000 {
        let key = format!("key{}", i);
        directory_page.put(key.clone(), format!("value{}", i), std_hash(&key));
    }
    assert!(directory_page.free.is_empty());
    for i in 0..3990 {
        let key = format!("key{}", i);
        directory_page.del(&key, std_hash(&key));
    }
    let freed = directory_page.free.len();
    assert!(freed > 0);
    for i in 0..3990 {
        let key = format!("key{}", i);
        directory_page.put(key.clone(), format!("value{}", i), std_hash(&key));
    }
    assert!(directory_page.free.len() < freed);
    check_capacity(&directory_page);
    for i in 0..4000 {
        let key = format!("key{}", i);
        assert_eq!(directory_page.get(&key, std_hash(&key)), Some(format!("value{}", i)));
    }
}

#[test]
fn put_raises_global_depth_by_at_most_one() {
    let mut directory_page: DirectoryPage<String, String> = DirectoryPage::new(1);
    let mut grew = false;
    for i in 0..1000 {
        let before = directory_page.global_depth;
        let key = format!("k{}", i);
        directory_page.put(key.clone(), format!("v{}", i), std_hash(&key));
        assert!(directory_page.global_depth >= before);
        assert!(directory_page.global_depth <= before + 1);
        if directory_page.global_depth > before {
            grew = true;
        }
    }
    assert!(grew);
    let missing = format!("missing");
    let buckets = directory_page.buckets.clone();
    let depth = directory_page.global_depth;
    assert_eq!(directory_page.del(&missing, std_hash(&missing)), None);
    assert_eq!(directory_page.buckets, buckets);
    assert_eq!(directory_page.global_depth, depth);
}
