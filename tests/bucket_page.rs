use extendible_hashing::{BucketPage, DirectoryPage, BUCKET_DEFAULT_INIT_DEPTH};
use std::collections::hash_map::DefaultHasher;
use std::hash::{Hash, Hasher};

fn test_hash_code(key: &String) -> u64 {
    let mut hasher = DefaultHasher::new();
    key.hash(&mut hasher);
    hasher.finish()
}

#[test]
fn test_bucket_page_default_and_new() {
    let bucket_page: BucketPage<String, String> = BucketPage::default();
    assert_eq!(bucket_page.depth, BUCKET_DEFAULT_INIT_DEPTH);
    assert_eq!(bucket_page.size, 0);
    assert_eq!(bucket_page.elems.len(), 1 << BUCKET_DEFAULT_INIT_DEPTH);
    for elem in bucket_page.elems.iter() {
        assert!(elem.is_none());
    }
    assert!(bucket_page.is_empty());
}

#[test]
fn extendible_hashing_test_bucket_page_put() {
    let mut bucket_page1: BucketPage<String, String> = BucketPage::default();
    let key1 = String::from("key1");
    let value1 = String::from("value1");
    let hash_code1 = DirectoryPage::<String, String>::hash_code(&key1);
    let _ = bucket_page1.put(key1, value1, hash_code1);
    assert_eq!(bucket_page1.size, 1);

    let mut bucket_page2: BucketPage<String, String> = BucketPage::default();
    for i in 0..(1 << BUCKET_DEFAULT_INIT_DEPTH) {
        let key = format!("key{}", i + 1);
        let value = format!("value{}", i + 1);
        let hash_code = DirectoryPage::<String, String>::hash_code(&key);
        assert!(bucket_page2.put(key, value, hash_code).is_ok());
    }
    assert_eq!(bucket_page2.size, 1 << BUCKET_DEFAULT_INIT_DEPTH);
    assert!(bucket_page2.is_full());
    let key = format!("key");
    let value = format!("value");
    let hash_code = DirectoryPage::<String, String>::hash_code(&key);
    assert!(!bucket_page2.put(key, value, hash_code).is_ok());
}

#[test]
fn extendible_hashing_test_bucket_page_get() {
    let mut bucket_page: BucketPage<String, String> = BucketPage::default();
    for i in 0..(1 << BUCKET_DEFAULT_INIT_DEPTH) {
        let key = format!("key{}", i + 1);
        let value = format!("value{}", i + 1);
        let hash_code = DirectoryPage::<String, String>::hash_code(&key);
        assert!(bucket_page.put(key, value, hash_code).is_ok());
    }
    for i in 0..(1 << BUCKET_DEFAULT_INIT_DEPTH) {
        let key = format!("key{}", i + 1);
        let value = format!("value{}", i + 1);
        let hash_code = DirectoryPage::<String, String>::hash_code(&key);
        assert_eq!(bucket_page.get(&key, hash_code), Some(&value));
    }

    for i in (1 << BUCKET_DEFAULT_INIT_DEPTH)..(1 << (BUCKET_DEFAULT_INIT_DEPTH + 1)) {
        let key = format!("key{}", i + 1);
        let hash_code = DirectoryPage::<String, String>::hash_code(&key);
        assert_eq!(bucket_page.get(&key, hash_code), None);
    }
}

#[test]
fn extendible_hashing_test_bucket_page_del() {
    let mut bucket_page: BucketPage<String, String> = BucketPage::default();
    for i in 0..(1 << BUCKET_DEFAULT_INIT_DEPTH) {
        let key = format!("key{}", i + 1);
        let value = format!("value{}", i + 1);
        let hash_code = DirectoryPage::<String, String>::hash_code(&key);
        assert!(bucket_page.put(key, value, hash_code).is_ok());
    }

    let key = format!("key1");
    let value = format!("value1");
    let hash_code = DirectoryPage::<String, String>::hash_code(&key);
    let del_value = bucket_page.del(&key, hash_code);
    assert_eq!(del_value.clone().unwrap().key, key);
    assert_eq!(del_value.clone().unwrap().value, value);
    assert_eq!(&del_value.unwrap().hash_code, &hash_code);

    assert_eq!(bucket_page.size, (1 << BUCKET_DEFAULT_INIT_DEPTH) - 1);
    assert_eq!(
        bucket_page.get(
            &format!("key1"),
            DirectoryPage::<String, String>::hash_code(&format!("key1")),
        ),
        None
    );
}

#[test]
fn test_bucket_page_clear() {
    let mut bucket_page: BucketPage<String, String> = BucketPage::default();
    for i in 0..(1 << BUCKET_DEFAULT_INIT_DEPTH) {
        let key = format!("key{}", i + 1);
        let value = format!("value{}", i + 1);
        let hash_code = DirectoryPage::<String, String>::hash_code(&key);
        assert!(bucket_page.put(key, value, hash_code).is_ok());
    }
    bucket_page.clear();
    assert!(bucket_page.is_empty());
}

#[test]
fn extendible_hashing_test_bucket_page_grow() {
    let mut bucket_page: BucketPage<String, String> = BucketPage::default();
    for i in 0..(1 << BUCKET_DEFAULT_INIT_DEPTH) {
        let key = format!("key{}", i + 1);
        let value = format!("value{}", i + 1);
        let hash_code = DirectoryPage::<String, String>::hash_code(&key);
        assert!(bucket_page.put(key, value, hash_code).is_ok());
    }
    bucket_page.grow();

    assert_eq!(bucket_page.depth, BUCKET_DEFAULT_INIT_DEPTH + 1);

    for i in (1 << BUCKET_DEFAULT_INIT_DEPTH)..(1 << (BUCKET_DEFAULT_INIT_DEPTH + 1)) {
        assert!(bucket_page.elems[i].is_none());
    }
}

#[test]
fn extendible_hashing_test_bucket_page_contain() {
    let mut bucket_page: BucketPage<String, String> = BucketPage::default();
    for i in 0..(1 << BUCKET_DEFAULT_INIT_DEPTH) {
        let key = format!("key{}", i + 1);
        let value = format!("value{}", i + 1);
        let hash_code = DirectoryPage::<String, String>::hash_code(&key);
        assert!(bucket_page.put(key, value, hash_code).is_ok());
    }
    for i in 0..(1 << BUCKET_DEFAULT_INIT_DEPTH) {
        let key = format!("key{}", i + 1);
        let hash_code = DirectoryPage::<String, String>::hash_code(&key);
        assert!(bucket_page.contain(&key, hash_code));
    }

    for i in (1 << BUCKET_DEFAULT_INIT_DEPTH)..(1 << (BUCKET_DEFAULT_INIT_DEPTH + 1)) {
        let key = format!("key{}", i + 1);
        let hash_code = DirectoryPage::<String, String>::hash_code(&key);
        assert!(!bucket_page.contain(&key, hash_code));
    }
}

#[test]
fn mod_test_bucket_page_put() {
    let mut bucket_page1: BucketPage<String, String> = BucketPage::default();
    let key1 = String::from("key1");
    let value1 = String::from("value1");
    let hash_code1 = test_hash_code(&key1);
    let _ = bucket_page1.put(key1, value1, hash_code1);
    assert_eq!(bucket_page1.size, 1);

    let mut bucket_page2: BucketPage<String, String> = BucketPage::default();
    for i in 0..(1 << BUCKET_DEFAULT_INIT_DEPTH) {
        let key = format!("key{}", i + 1);
        let value = format!("value{}", i + 1);
        let hash_code = test_hash_code(&key);
        assert!(bucket_page2.put(key, value, hash_code).is_ok());
    }
    assert_eq!(bucket_page2.size, 1 << BUCKET_DEFAULT_INIT_DEPTH);
    let key = format!("key");
    let value = format!("value");
    let hash_code = test_hash_code(&key);
    assert!(!bucket_page2.put(key, value, hash_code).is_ok());
}

#[test]
fn mod_test_bucket_page_get() {
    let mut bucket_page: BucketPage<String, String> = BucketPage::default();
    for i in 0..(1 << BUCKET_DEFAULT_INIT_DEPTH) {
        let key = format!("key{}", i + 1);
        let value = format!("value{}", i + 1);
        let hash_code = test_hash_code(&key);
        assert!(bucket_page.put(key, value, hash_code).is_ok());
    }
    for i in 0..(1 << BUCKET_DEFAULT_INIT_DEPTH) {
        let key = format!("key{}", i + 1);
        let value = format!("value{}", i + 1);
        let hash_code = test_hash_code(&key);
        assert_eq!(bucket_page.get(&key, hash_code), Some(&value));
    }

    for i in (1 << BUCKET_DEFAULT_INIT_DEPTH)..(1 << (BUCKET_DEFAULT_INIT_DEPTH + 1)) {
        let key = format!("key{}", i + 1);
        let hash_code = test_hash_code(&key);
        assert_eq!(bucket_page.get(&key, hash_code), None);
    }
}

#[test]
fn mod_test_bucket_page_del() {
    let mut bucket_page: BucketPage<String, String> = BucketPage::default();
    for i in 0..(1 << BUCKET_DEFAULT_INIT_DEPTH) {
        let key = format!("key{}", i + 1);
        let value = format!("value{}", i + 1);
        let hash_code = test_hash_code(&key);
        assert!(bucket_page.put(key, value, hash_code).is_ok());
    }

    let key = format!("key1");
    let value = format!("value1");
    let hash_code = test_hash_code(&key);
    let del_value = bucket_page.del(&key, hash_code);
    assert_eq!(del_value.clone().unwrap().key, key);
    assert_eq!(del_value.clone().unwrap().value, value);
    assert_eq!(&del_value.unwrap().hash_code, &hash_code);

    assert_eq!(bucket_page.size, (1 << BUCKET_DEFAULT_INIT_DEPTH) - 1);
    assert_eq!(
        bucket_page.get(&format!("key1"), test_hash_code(&format!("key1")),),
        None
    );
}

#[test]
fn mod_test_bucket_page_grow() {
    let mut bucket_page: BucketPage<String, String> = BucketPage::default();
    for i in 0..(1 << BUCKET_DEFAULT_INIT_DEPTH) {
        let key = format!("key{}", i + 1);
        let value = format!("value{}", i + 1);
        let hash_code = test_hash_code(&key);
        assert!(bucket_page.put(key, value, hash_code).is_ok());
    }
    bucket_page.grow();

    assert_eq!(bucket_page.depth, BUCKET_DEFAULT_INIT_DEPTH + 1);

    for i in (1 << BUCKET_DEFAULT_INIT_DEPTH)..(1 << (BUCKET_DEFAULT_INIT_DEPTH + 1)) {
        assert!(bucket_page.elems[i].is_none());
    }
}

#[test]
fn mod_test_bucket_page_contain() {
    let mut bucket_page: BucketPage<String, String> = BucketPage::default();
    for i in 0..(1 << BUCKET_DEFAULT_INIT_DEPTH) {
        let key = format!("key{}", i + 1);
        let value = format!("value{}", i + 1);
        let hash_code = test_hash_code(&key);
        assert!(bucket_page.put(key, value, hash_code).is_ok());
    }
    for i in 0..(1 << BUCKET_DEFAULT_INIT_DEPTH) {
        let key = format!("key{}", i + 1);
        let hash_code = test_hash_code(&key);
        assert!(bucket_page.contain(&key, hash_code));
    }

    for i in (1 << BUCKET_DEFAULT_INIT_DEPTH)..(1 << (BUCKET_DEFAULT_INIT_DEPTH + 1)) {
        let key = format!("key{}", i + 1);
        let hash_code = test_hash_code(&key);
        assert!(!bucket_page.contain(&key, hash_code));
    }
}
