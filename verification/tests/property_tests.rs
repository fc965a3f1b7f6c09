use product_registry::access_control::AccessControl;
use product_registry::errors::RegistryError;
use product_registry::registry::{initialize, Product};

fn paul() -> String {
    "Paul".to_string()
}

fn eve() -> String {
    "Eve".to_string()
}

#[test]
fn grant_role_twice_is_idempotent() {
    let mut access = AccessControl::new();
    access.setup_role("CAN_WRITE".to_string(), eve());
    assert!(access.has_role(&"CAN_WRITE".to_string(), &eve()));
    access.setup_role("CAN_WRITE".to_string(), eve());
    assert!(access.has_role(&"CAN_WRITE".to_string(), &eve()));
    assert!(!access.has_role(&"CAN_DELETE".to_string(), &eve()));
    assert!(!access.has_role(&"CAN_WRITE".to_string(), &paul()));
}

#[test]
fn unauthorized_set_fails_with_401_and_changes_nothing() {
    let mut contract = Product::new(paul());

    contract
        .set_products(&paul(), "0x1".to_string(), "PS4".to_string(), 800, 100)
        .unwrap();

    let err = contract
        .set_products(&eve(), "0x1".to_string(), "hacked".to_string(), 1, 1)
        .unwrap_err();
    assert_eq!(err, RegistryError::Unauthorized);
    assert_eq!(err.code(), "401");

    let item = contract.get_products("0x1".to_string()).unwrap();
    assert_eq!(item.name, "PS4");
    assert_eq!(item.price, 800);
    assert_eq!(item.stock, 100);
}

#[test]
fn unauthorized_delete_fails_with_401_and_changes_nothing() {
    let mut contract = Product::new(paul());

    contract
        .set_products(&paul(), "0x1".to_string(), "PS4".to_string(), 800, 100)
        .unwrap();

    let err = contract.delete_products(&eve(), "0x1".to_string()).unwrap_err();
    assert_eq!(err, RegistryError::Unauthorized);
    assert_eq!(err.code(), "401");

    assert!(contract.get_products("0x1".to_string()).is_some());
}

#[test]
fn granted_principal_can_set() {
    let mut contract = Product::new(paul());

    contract.add_role_set_product(&paul(), eve()).unwrap();

    contract
        .set_products(&eve(), "k".to_string(), "x".to_string(), 1, 1)
        .unwrap();

    let item = contract.get_products("k".to_string()).unwrap();
    assert_eq!(item.name, "x");
    assert_eq!(item.price, 1);
    assert_eq!(item.stock, 1);
}

#[test]
fn grant_requires_owner() {
    let mut contract = Product::new(paul());

    let err = contract.add_role_set_product(&eve(), eve()).unwrap_err();
    assert_eq!(err, RegistryError::NotOwner);

    let err = contract.add_role_delete_product(&eve(), eve()).unwrap_err();
    assert_eq!(err, RegistryError::NotOwner);

    let err = contract
        .set_products(&eve(), "k".to_string(), "x".to_string(), 1, 1)
        .unwrap_err();
    assert_eq!(err, RegistryError::Unauthorized);
}

#[test]
fn owner_can_set_and_delete_immediately_after_initialization() {
    let mut contract = Product::new(paul());

    contract
        .set_products(&paul(), "a".to_string(), "b".to_string(), 0, 0)
        .unwrap();
    contract.delete_products(&paul(), "a".to_string()).unwrap();
    assert!(contract.get_products("a".to_string()).is_none());
}

#[test]
fn delete_of_absent_key_is_a_no_op() {
    let mut contract = Product::new(paul());

    contract.delete_products(&paul(), "never".to_string()).unwrap();
    assert!(contract.get_products("never".to_string()).is_none());
}

#[test]
fn second_initialization_fails_and_keeps_state() {
    let mut slot: Option<Product> = None;

    initialize(&mut slot, paul()).unwrap();
    slot.as_mut()
        .unwrap()
        .set_products(&paul(), "0x1".to_string(), "PS4".to_string(), 800, 100)
        .unwrap();

    let err = initialize(&mut slot, eve()).unwrap_err();
    assert_eq!(err, RegistryError::AlreadyInitialized);

    let contract = slot.as_ref().unwrap();
    assert_eq!(contract.get_owner(), "Paul");
    let item = contract.get_products("0x1".to_string()).unwrap();
    assert_eq!(item.price, 800);
}

#[test]
fn ownership_transfer_moves_granting_power_not_roles() {
    let mut contract = Product::new(paul());

    contract.set_owner(&paul(), eve()).unwrap();
    assert_eq!(contract.get_owner(), "Eve");

    let err = contract.add_role_set_product(&paul(), paul()).unwrap_err();
    assert_eq!(err, RegistryError::NotOwner);

    contract.add_role_delete_product(&eve(), eve()).unwrap();

    contract
        .set_products(&paul(), "k".to_string(), "x".to_string(), 2, 3)
        .unwrap();

    let err = contract.set_owner(&paul(), paul()).unwrap_err();
    assert_eq!(err, RegistryError::NotOwner);
}

#[test]
fn zero_values_and_empty_name_are_legal() {
    let mut contract = Product::new(paul());

    contract
        .set_products(&paul(), "".to_string(), "".to_string(), 0, 0)
        .unwrap();

    let item = contract.get_products("".to_string()).unwrap();
    assert_eq!(item.name, "");
    assert_eq!(item.price, 0);
    assert_eq!(item.stock, 0);
}

#[test]
fn largest_field_values_are_stored_exactly() {
    let mut contract = Product::new(paul());

    contract
        .set_products(&paul(), "k".to_string(), "max".to_string(), u128::MAX, u8::MAX)
        .unwrap();

    let item = contract.get_products("k".to_string()).unwrap();
    assert_eq!(item.price, u128::MAX);
    assert_eq!(item.stock, u8::MAX);
}

#[test]
fn state_round_trip_preserves_observations() {
    let mut contract = Product::new(paul());
    contract.add_role_set_product(&paul(), eve()).unwrap();
    contract
        .set_products(&paul(), "0x1".to_string(), "PS4".to_string(), 800, 100)
        .unwrap();
    contract
        .set_products(&eve(), "0x2".to_string(), "PS5".to_string(), 1200, 7)
        .unwrap();

    let set_holders = contract.set_role_holders();
    assert!(set_holders.contains(&paul()));
    assert!(set_holders.contains(&eve()));
    let delete_holders = contract.delete_role_holders();
    assert!(delete_holders.contains(&paul()));
    assert!(!delete_holders.contains(&eve()));

    let mut rebuilt = Product::from_state(
        contract.get_owner(),
        set_holders,
        delete_holders,
        contract.entries(),
    );

    assert_eq!(rebuilt.get_owner(), "Paul");
    let item = rebuilt.get_products("0x1".to_string()).unwrap();
    assert_eq!(item.name, "PS4");
    assert_eq!(item.price, 800);
    assert_eq!(item.stock, 100);
    let item = rebuilt.get_products("0x2".to_string()).unwrap();
    assert_eq!(item.stock, 7);
    assert!(rebuilt.get_products("0x3".to_string()).is_none());

    rebuilt
        .set_products(&eve(), "0x3".to_string(), "x".to_string(), 1, 1)
        .unwrap();
    let err = rebuilt
        .delete_products(&eve(), "0x3".to_string())
        .unwrap_err();
    assert_eq!(err, RegistryError::Unauthorized);
}

#[test]
fn error_codes_are_stable() {
    assert_eq!(RegistryError::Unauthorized.code(), "401");
    assert_eq!(
        RegistryError::AlreadyInitialized.code(),
        "The contract is already initialized"
    );
    assert_eq!(RegistryError::NotOwner.code(), "Owner must be the caller");
}
