use batch_auction::factory::{
    is_valid_token_id, min_attached_balance, name_taken, storage_deposit_outcome,
    validate_token_creation, FactoryError,
};

const ONE_NEAR: u128 = 1_000_000_000_000_000_000_000_000;

#[test]
fn test_is_valid_token_id() {
    assert!(is_valid_token_id(&"example".to_string()));
    assert!(is_valid_token_id(&"token42".to_string()));
    assert!(is_valid_token_id(&"".to_string()));
    assert!(!is_valid_token_id(&"EXAMPLE".to_string()));
    assert!(!is_valid_token_id(&"to-ken".to_string()));
    assert!(!is_valid_token_id(&"tok en".to_string()));
    assert!(!is_valid_token_id(&"tokén".to_string()));
}

#[test]
fn test_min_attached_balance_formula() {
    // 10^19 smallest units per byte, 200000 bytes of code, 500 bytes
    // of arguments: (200000 + 10000 + 2 * 500) * 10^19.
    let cost = min_attached_balance(10_000_000_000_000_000_000, 200_000, 500);
    assert_eq!(cost, 2_110_000_000_000_000_000_000_000);
}

#[test]
fn test_min_attached_balance_saturates() {
    let cost = min_attached_balance(u128::MAX, 200_000, 500);
    assert_eq!(cost, u128::MAX);
}

#[test]
fn test_storage_deposit_outcome() {
    // A known account accumulates whatever it attaches.
    assert_eq!(
        storage_deposit_outcome(Some(3 * ONE_NEAR), 2 * ONE_NEAR, 5),
        Ok(5 * ONE_NEAR)
    );
    // A new account must cover the storage cost, here 5 whole units.
    assert_eq!(
        storage_deposit_outcome(None, 4 * ONE_NEAR, 5),
        Err(FactoryError::DepositTooLow)
    );
    // A sufficient deposit keeps the excess on the account.
    assert_eq!(
        storage_deposit_outcome(None, 7 * ONE_NEAR, 5),
        Ok(2 * ONE_NEAR)
    );
}

#[test]
fn test_name_taken() {
    let names = vec!["Alpha Token".to_string(), "Beta Token".to_string()];
    assert!(name_taken(&names, &"Alpha Token".to_string()));
    assert!(!name_taken(&names, &"Gamma Token".to_string()));
}

#[test]
fn test_validate_token_creation() {
    let names = vec!["Alpha Token".to_string()];

    let bad_id = validate_token_creation(
        &"Bad-Id".to_string(),
        &names,
        &"Gamma Token".to_string(),
        10 * ONE_NEAR,
        ONE_NEAR,
    );
    assert_eq!(bad_id, Err(FactoryError::InvalidTokenId));

    let taken = validate_token_creation(
        &"alpha".to_string(),
        &names,
        &"Alpha Token".to_string(),
        10 * ONE_NEAR,
        ONE_NEAR,
    );
    assert_eq!(taken, Err(FactoryError::TokenNameTaken));

    let poor = validate_token_creation(
        &"gamma".to_string(),
        &names,
        &"Gamma Token".to_string(),
        ONE_NEAR / 2,
        ONE_NEAR,
    );
    assert_eq!(poor, Err(FactoryError::InsufficientBalance));

    let ok = validate_token_creation(
        &"gamma".to_string(),
        &names,
        &"Gamma Token".to_string(),
        10 * ONE_NEAR,
        ONE_NEAR,
    );
    assert_eq!(ok, Ok(()));
}
