use category_tree::model::StoreError;
use category_tree::store::UserStore;

#[test]
fn create_user_assigns_store_ids_in_order() {
    let mut store = UserStore::new();
    let first = store
        .create_user(
            "batman@cave.com".to_string(),
            "Bruce".to_string(),
            "Wayne".to_string(),
            "pass".to_string(),
            1,
        )
        .unwrap();
    assert_eq!(first, 1);
    let second = store
        .create_user(
            "robin@cave.com".to_string(),
            "Dick".to_string(),
            "Grayson".to_string(),
            "word".to_string(),
            7,
        )
        .unwrap();
    assert_eq!(second, 2);
}

#[test]
fn create_user_keeps_the_business_user_id_apart() {
    let mut store = UserStore::new();
    let assigned = store
        .create_user(
            "batman@cave.com".to_string(),
            "Bruce".to_string(),
            "Wayne".to_string(),
            "pass".to_string(),
            42,
        )
        .unwrap();
    // the store id is assigned independently of the supplied user_id
    assert_eq!(assigned, 1);
}

#[test]
fn unavailable_user_store_rejects_inserts() {
    let mut store = UserStore::new();
    store.set_available(false);
    let r = store.create_user(
        "a@b.c".to_string(),
        "A".to_string(),
        "B".to_string(),
        "t".to_string(),
        1,
    );
    assert!(matches!(r, Err(StoreError::StoreUnavailable)));
}
