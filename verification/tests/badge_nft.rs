use badge_registry::badge_nft::BadgeNFT;

fn mint(
    ledger: &mut BadgeNFT,
    receiver: &str,
    test_id: &str,
    metadata_uri: &str,
    minted_at: u64,
) -> badge_registry::badge_nft::BadgeMetadata {
    ledger
        .mint_badge(
            String::from(receiver),
            String::from(test_id),
            String::from(metadata_uri),
            minted_at,
            true,
        )
        .unwrap()
}

#[test]
fn test_mint_badge() {
    let mut ledger = BadgeNFT::new();
    ledger.initialize();

    let user = String::from("GUSERAAAAAAAAAAAAAAAAAAAAAAAAAA");
    let test_id = String::from("test-123");
    let metadata_uri = String::from("ipfs://QmXXXXXXXXX");

    let badge = ledger
        .mint_badge(user.clone(), test_id.clone(), metadata_uri.clone(), 0, true)
        .unwrap();

    assert_eq!(badge.token_id, 1);
    assert_eq!(badge.owner, user);
    assert_eq!(badge.test_id, test_id);

    assert_eq!(ledger.total_supply(), 1);

    assert_eq!(ledger.balance_of(&user), 1);
}

#[test]
fn test_get_badges_by_owner() {
    let mut ledger = BadgeNFT::new();
    ledger.initialize();

    let user = String::from("GUSERAAAAAAAAAAAAAAAAAAAAAAAAAA");

    for i in 1..=3u32 {
        let test_id = format!("test-{}", i);
        let metadata_uri = format!("ipfs://QmXXX{}", i);
        mint(&mut ledger, &user, &test_id, &metadata_uri, 0);
    }

    let badges = ledger.get_badges_by_owner(&user);
    assert_eq!(badges.len(), 3);

    assert_eq!(ledger.balance_of(&user), 3);
}

#[test]
fn test_has_badge_for_test() {
    let mut ledger = BadgeNFT::new();
    ledger.initialize();

    let user = String::from("GUSERAAAAAAAAAAAAAAAAAAAAAAAAAA");
    let test_id = String::from("test-123");
    let metadata_uri = String::from("ipfs://QmXXXXXXXXX");

    assert!(!ledger.has_badge_for_test(&user, &test_id));

    mint(&mut ledger, &user, &test_id, &metadata_uri, 0);

    assert!(ledger.has_badge_for_test(&user, &test_id));
}

#[test]
fn test_mint_requires_authorization() {
    let mut ledger = BadgeNFT::new();
    ledger.initialize();

    let result = ledger.mint_badge(
        String::from("owner-a"),
        String::from("t1"),
        String::from("uri-1"),
        9,
        false,
    );
    assert!(result.is_err());

    // The rejected mint changed nothing.
    assert_eq!(ledger.total_supply(), 0);
    assert_eq!(ledger.balance_of(&String::from("owner-a")), 0);
    assert!(ledger.get_all_badges().is_empty());
}

#[test]
fn test_first_mint_without_initialize() {
    // No initialize call: the counter reads as zero and the first mint
    // yields token id 1, exactly as on an initialized, empty ledger.
    let mut ledger = BadgeNFT::new();

    let badge = mint(&mut ledger, "owner-b", "t1", "uri-1", 5);
    assert_eq!(badge.token_id, 1);
    assert_eq!(ledger.total_supply(), 1);
}

#[test]
fn test_two_mints_same_owner_in_order() {
    let mut ledger = BadgeNFT::new();
    ledger.initialize();

    let a = String::from("owner-a");

    let first = mint(&mut ledger, &a, "t1", "uri-1", 10);
    assert_eq!(first.token_id, 1);
    assert_eq!(ledger.total_supply(), 1);
    assert_eq!(ledger.balance_of(&a), 1);

    let second = mint(&mut ledger, &a, "t2", "uri-2", 11);
    assert_eq!(second.token_id, 2);
    assert_eq!(ledger.balance_of(&a), 2);

    let badges = ledger.get_badges_by_owner(&a);
    assert_eq!(badges.len(), 2);
    assert_eq!(badges[0].token_id, 1);
    assert_eq!(badges[0].test_id, "t1");
    assert_eq!(badges[0].minted_at, 10);
    assert_eq!(badges[1].token_id, 2);
    assert_eq!(badges[1].test_id, "t2");
    assert_eq!(badges[1].minted_at, 11);
}

#[test]
fn test_unassigned_token_id_not_found() {
    let mut ledger = BadgeNFT::new();
    ledger.initialize();

    assert!(ledger.get_badge(0).is_none());
    assert!(ledger.get_badge(1).is_none());
    assert!(ledger.owner_of(1).is_none());

    mint(&mut ledger, "owner-a", "t1", "uri-1", 0);

    assert!(ledger.get_badge(1).is_some());
    assert_eq!(ledger.owner_of(1).unwrap(), "owner-a");
    assert!(ledger.get_badge(0).is_none());
    assert!(ledger.get_badge(2).is_none());
    assert!(ledger.owner_of(2).is_none());
}

#[test]
fn test_badges_by_owner_never_minted() {
    let ledger = BadgeNFT::new();
    let badges = ledger.get_badges_by_owner(&String::from("nobody"));
    assert!(badges.is_empty());
    assert_eq!(ledger.balance_of(&String::from("nobody")), 0);
}

#[test]
fn test_mint_same_pair_twice() {
    // No duplicate prevention: the same (owner, test) pair mints twice.
    let mut ledger = BadgeNFT::new();
    ledger.initialize();

    let a = String::from("owner-a");
    let first = mint(&mut ledger, &a, "t1", "uri-1", 0);
    let second = mint(&mut ledger, &a, "t1", "uri-2", 1);
    assert_eq!(first.token_id, 1);
    assert_eq!(second.token_id, 2);
    assert_eq!(ledger.balance_of(&a), 2);
    assert!(ledger.has_badge_for_test(&a, &String::from("t1")));
}

#[test]
fn test_owners_indexed_independently() {
    let mut ledger = BadgeNFT::new();
    ledger.initialize();

    mint(&mut ledger, "owner-a", "t1", "uri-1", 0);
    mint(&mut ledger, "owner-b", "t2", "uri-2", 0);
    mint(&mut ledger, "owner-a", "t3", "uri-3", 0);

    assert_eq!(ledger.balance_of(&String::from("owner-a")), 2);
    assert_eq!(ledger.balance_of(&String::from("owner-b")), 1);

    let of_b = ledger.get_badges_by_owner(&String::from("owner-b"));
    assert_eq!(of_b.len(), 1);
    assert_eq!(of_b[0].token_id, 2);
    assert_eq!(of_b[0].owner, "owner-b");

    assert!(!ledger.has_badge_for_test(&String::from("owner-b"), &String::from("t1")));
    assert!(ledger.has_badge_for_test(&String::from("owner-b"), &String::from("t2")));

    assert_eq!(ledger.get_all_badges().len(), 3);
}

#[test]
fn test_reinitialize_resets_counter() {
    // `initialize` unconditionally resets the counter and touches nothing
    // else: after a mint this is destructive (the next mint would reuse a
    // token id), and the state shows exactly that.
    let mut ledger = BadgeNFT::new();
    ledger.initialize();
    mint(&mut ledger, "owner-a", "t1", "uri-1", 0);
    assert_eq!(ledger.total_supply(), 1);

    ledger.initialize();
    assert_eq!(ledger.total_supply(), 0);
    assert_eq!(ledger.get_all_badges().len(), 1);
    assert_eq!(ledger.balance_of(&String::from("owner-a")), 1);
}
