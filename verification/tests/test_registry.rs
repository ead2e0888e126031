use badge_registry::test_registry::TestRegistry;

#[test]
fn test_register_and_get_test() {
    let mut registry = TestRegistry::new();

    let test_id = String::from("test-123");
    let creator = String::from("GXXXXXXXXXXXXXXXXXXXXXX");
    let metadata_cid = String::from("QmXXXXXXXXXXXXXXXXXX");

    let result = registry.register_test(test_id.clone(), creator.clone(), metadata_cid.clone(), 0);

    assert_eq!(result.test_id, test_id);
    assert_eq!(result.creator, creator);
    assert_eq!(result.metadata_cid, metadata_cid);

    let retrieved = registry.get_test(&test_id);
    assert!(retrieved.is_some());

    let test = retrieved.unwrap();
    assert_eq!(test.test_id, test_id);

    assert!(registry.test_exists(&test_id));

    assert_eq!(registry.get_test_count(), 1);
}

#[test]
fn test_list_tests() {
    let mut registry = TestRegistry::new();

    for i in 1..=3u32 {
        let test_id = format!("test-{}", i);
        let creator = String::from("GXXXXXXXXXXXXXXXXXXXXXX");
        let metadata_cid = format!("QmXXXXX{}", i);

        registry.register_test(test_id, creator, metadata_cid, 0);
    }

    let tests = registry.list_tests();
    assert_eq!(tests.len(), 3);
}

#[test]
fn test_register_returns_exact_inputs() {
    let mut registry = TestRegistry::new();

    let record = registry.register_test(
        String::from("quiz-7"),
        String::from("creator-1"),
        String::from("cid-abc"),
        42,
    );
    assert_eq!(record.test_id, "quiz-7");
    assert_eq!(record.creator, "creator-1");
    assert_eq!(record.metadata_cid, "cid-abc");
    assert_eq!(record.created_at, 42);

    let found = registry.get_test(&String::from("quiz-7")).unwrap();
    assert_eq!(found.test_id, "quiz-7");
    assert_eq!(found.creator, "creator-1");
    assert_eq!(found.metadata_cid, "cid-abc");
    assert_eq!(found.created_at, 42);
}

#[test]
fn test_three_distinct_ids_in_order() {
    let mut registry = TestRegistry::new();
    registry.register_test(String::from("a"), String::from("c1"), String::from("m1"), 1);
    registry.register_test(String::from("b"), String::from("c2"), String::from("m2"), 2);
    registry.register_test(String::from("c"), String::from("c3"), String::from("m3"), 3);

    let tests = registry.list_tests();
    assert_eq!(tests.len(), 3);
    assert_eq!(tests[0].test_id, "a");
    assert_eq!(tests[1].test_id, "b");
    assert_eq!(tests[2].test_id, "c");

    assert_eq!(registry.get_test_count(), 3);

    assert!(registry.test_exists(&String::from("a")));
    assert!(registry.test_exists(&String::from("b")));
    assert!(registry.test_exists(&String::from("c")));
    assert!(!registry.test_exists(&String::from("d")));
}

#[test]
fn test_empty_registry_reads() {
    let registry = TestRegistry::new();
    assert_eq!(registry.get_test_count(), 0);
    assert!(registry.list_tests().is_empty());
    assert!(registry.get_test(&String::from("missing")).is_none());
    assert!(!registry.test_exists(&String::from("missing")));
}

#[test]
fn test_duplicate_id_returns_earliest() {
    // No uniqueness enforcement: a duplicate registration appends a second
    // record, and lookups keep returning the earliest one.
    let mut registry = TestRegistry::new();
    registry.register_test(String::from("dup"), String::from("first"), String::from("m1"), 1);
    registry.register_test(String::from("dup"), String::from("second"), String::from("m2"), 2);

    assert_eq!(registry.get_test_count(), 2);
    let found = registry.get_test(&String::from("dup")).unwrap();
    assert_eq!(found.creator, "first");
    assert_eq!(found.created_at, 1);
}
