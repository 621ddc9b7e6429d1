use extendible_hashing::{DirectoryPage, BUCKET_DEFAULT_INIT_DEPTH, DIRECTORY_DEFAULT_INIT_GLOBAL_DEPTH};
use std::collections::hash_map::DefaultHasher;
use std::hash::{Hash, Hasher};

fn test_hash_code(key: &String) -> u64 {
    let mut hasher = DefaultHasher::new();
    key.hash(&mut hasher);
    hasher.finish()
}

fn bucket_depths(directory_page: &DirectoryPage<String, String>) -> Vec<usize> {
    let mut depths = Vec::new();
    for j in 0..directory_page.buckets.len() {
        depths.push(directory_page.pages[directory_page.buckets[j]].depth);
    }
    depths
}

#[test]
fn extendible_hashing_test_directory_page_default_new() {
    let directory_page: DirectoryPage<String, String> = DirectoryPage::default();
    assert_eq!(directory_page.len(), 0);
    assert_eq!(
        directory_page.global_depth,
        DIRECTORY_DEFAULT_INIT_GLOBAL_DEPTH
    );

    for depth in bucket_depths(&directory_page) {
        assert_eq!(depth, BUCKET_DEFAULT_INIT_DEPTH);
    }

    let directory_page: DirectoryPage<String, String> = DirectoryPage::new(4);
    assert_eq!(directory_page.len(), 0);
    assert_eq!(directory_page.global_depth, 4);

    for depth in bucket_depths(&directory_page) {
        assert_eq!(depth, BUCKET_DEFAULT_INIT_DEPTH);
    }

    let directory_page: DirectoryPage<String, String> = DirectoryPage::new(1);
    assert_eq!(directory_page.len(), 0);
    assert_eq!(directory_page.global_depth, 1);

    for depth in bucket_depths(&directory_page) {
        assert_eq!(depth, 1);
    }
}

#[test]
fn extendible_hashing_test_directory_page_put_len_and_get() {
    let hash = DirectoryPage::<String, String>::hash_code;
    let mut directory_page: DirectoryPage<String, String> = DirectoryPage::default();
    directory_page.put(format!("key"), format!("value"), hash(&format!("key")));
    assert_eq!(
        directory_page.get(&format!("key"), hash(&format!("key"))),
        Some(format!("value"))
    );

    let mut directory_page: DirectoryPage<String, String> = DirectoryPage::default();
    for i in 0..10000 {
        let key = format!("key{}", i + 1);
        let hash_code = hash(&key);
        directory_page.put(key, format!("value{}", i + 1), hash_code);
    }
    assert_eq!(directory_page.len(), 10000);
    for i in 0..10000 {
        let key = format!("key{}", i + 1);
        assert_eq!(
            directory_page.get(&key, hash(&key)),
            Some(format!("value{}", i + 1))
        );
    }
    for i in 10000..20000 {
        let key = format!("key{}", i + 1);
        assert_eq!(directory_page.get(&key, hash(&key)), None);
    }
}

#[test]
fn mod_test_directory_page_default_new() {
    let directory_page: DirectoryPage<String, String> = DirectoryPage::default();
    assert_eq!(directory_page.size, 0);
    assert_eq!(
        directory_page.global_depth,
        DIRECTORY_DEFAULT_INIT_GLOBAL_DEPTH
    );

    for depth in bucket_depths(&directory_page) {
        assert_eq!(depth, BUCKET_DEFAULT_INIT_DEPTH);
    }

    let directory_page: DirectoryPage<String, String> = DirectoryPage::new(4);
    assert_eq!(directory_page.size, 0);
    assert_eq!(directory_page.global_depth, 4);

    for depth in bucket_depths(&directory_page) {
        assert_eq!(depth, BUCKET_DEFAULT_INIT_DEPTH);
    }

    let directory_page: DirectoryPage<String, String> = DirectoryPage::new(1);
    assert_eq!(directory_page.size, 0);
    assert_eq!(directory_page.global_depth, 1);

    for depth in bucket_depths(&directory_page) {
        assert_eq!(depth, 1);
    }
}

#[test]
fn mod_test_directory_page_put_len_and_get() {
    let mut directory_page: DirectoryPage<String, String> = DirectoryPage::default();
    directory_page.put(
        format!("key"),
        format!("value"),
        test_hash_code(&format!("key")),
    );
    assert_eq!(
        directory_page.get(&format!("key"), test_hash_code(&format!("key"))),
        Some(format!("value"))
    );

    let mut directory_page: DirectoryPage<String, String> = DirectoryPage::default();
    for i in 0..10000 {
        directory_page.put(
            format!("key{}", i + 1),
            format!("value{}", i + 1),
            test_hash_code(&format!("key{}", i + 1)),
        );
    }
    assert_eq!(directory_page.size, 10000);
    for i in 0..10000 {
        assert_eq!(
            directory_page.get(
                &format!("key{}", i + 1),
                test_hash_code(&format!("key{}", i + 1))
            ),
            Some(format!("value{}", i + 1))
        );
    }
    for i in 10000..20000 {
        assert_eq!(
            directory_page.get(
                &format!("key{}", i + 1),
                test_hash_code(&format!("key{}", i + 1))
            ),
            None
        );
    }
}

#[test]
fn test_directory_page_contain() {
    let mut directory_page: DirectoryPage<String, String> = DirectoryPage::default();
    directory_page.put(
        format!("key"),
        format!("value"),
        test_hash_code(&format!("key")),
    );
    assert!(directory_page.contain(&format!("key"), test_hash_code(&format!("key"))));

    let mut directory_page: DirectoryPage<String, String> = DirectoryPage::default();
    for i in 0..10000 {
        directory_page.put(
            format!("key{}", i + 1),
            format!("value{}", i + 1),
            test_hash_code(&format!("key{}", i + 1)),
        );
    }
    for i in 0..10000 {
        assert!(directory_page.contain(
            &format!("key{}", i + 1),
            test_hash_code(&format!("key{}", i + 1))
        ));
    }
    for i in 10000..20000 {
        assert!(!directory_page.contain(
            &format!("key{}", i + 1),
            test_hash_code(&format!("key{}", i + 1))
        ));
    }
}

#[test]
fn test_directory_page_del() {
    let mut directory_page: DirectoryPage<String, String> = DirectoryPage::default();
    directory_page.put(
        format!("key"),
        format!("value"),
        test_hash_code(&format!("key")),
    );
    assert!(directory_page.contain(&format!("key"), test_hash_code(&format!("key"))));
    assert_eq!(
        directory_page.del(&format!("key"), test_hash_code(&format!("key"))),
        Some((format!("key"), format!("value")))
    );
    assert_eq!(directory_page.size, 0);
    assert!(directory_page.size == 0);
    assert!(!directory_page.contain(&format!("key"), test_hash_code(&format!("key"))));

    let mut directory_page: DirectoryPage<String, String> = DirectoryPage::default();
    for i in 0..10000 {
        directory_page.put(
            format!("key{}", i + 1),
            format!("value{}", i + 1),
            test_hash_code(&format!("key{}", i + 1)),
        );
    }

    for i in 0..10000 {
        assert_eq!(
            directory_page.del(
                &format!("key{}", i + 1),
                test_hash_code(&format!("key{}", i + 1))
            ),
            Some((format!("key{}", i + 1), format!("value{}", i + 1)))
        );
        assert_eq!(directory_page.size, 10000 - i - 1);
        assert!(!directory_page.contain(
            &format!("key{}", i + 1),
            test_hash_code(&format!("key{}", i + 1))
        ));
    }
    assert!(directory_page.size == 0);
}
