use near_sdk_pure::account::is_valid_account_id;
use near_sdk_pure::test_env::alice;
use near_sdk_pure::test_env::bob;
use near_sdk_pure::test_env::carol;
use near_sdk_pure::ValidAccountId;

#[test]
fn test_from_str() {
    let key = ValidAccountId::try_from("alice.near").unwrap();
    assert_eq!(key.as_ref(), &"alice.near".to_string());
}

#[test]
fn rejects_malformed_identifiers() {
    assert!(ValidAccountId::try_from("Alice.near").is_err());
    assert!(ValidAccountId::try_from("a").is_err());
    assert!(ValidAccountId::try_from(".near").is_err());
    assert!(ValidAccountId::try_from("near.").is_err());
    assert!(ValidAccountId::try_from("a..b").is_err());
    assert!(ValidAccountId::try_from("hello world").is_err());
    assert!(ValidAccountId::try_from("").is_err());
}

#[test]
fn accepts_wellformed_identifiers() {
    assert!(is_valid_account_id("alice.near"));
    assert!(is_valid_account_id("ok"));
    assert!(is_valid_account_id("a-b_c.d0"));
    assert!(!is_valid_account_id("a--b"));
    assert!(!is_valid_account_id(&"x".repeat(65)));
    assert!(is_valid_account_id(&"x".repeat(64)));
}

#[test]
fn canonical_accounts_are_valid() {
    assert_eq!(alice(), "alice.near");
    assert_eq!(bob(), "bob.near");
    assert_eq!(carol(), "carol.near");
    assert!(is_valid_account_id(&alice()));
    assert!(is_valid_account_id(&bob()));
    assert!(is_valid_account_id(&carol()));
}
