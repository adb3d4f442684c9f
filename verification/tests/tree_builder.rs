use category_tree::model::{CategoryNode, StoreError};
use category_tree::store::CategoryStore;
use category_tree::tree::build_tree;

fn count_nodes(forest: &[CategoryNode]) -> usize {
    let mut total: usize = 0;
    for node in forest {
        total += 1 + count_nodes(&node.children);
    }
    total
}

#[test]
fn empty_store_yields_empty_forest() {
    let store = CategoryStore::new();
    let forest = build_tree(&store, None).unwrap();
    assert_eq!(forest.len(), 0);
}

#[test]
fn single_root_with_two_children() {
    let mut store = CategoryStore::new();
    let cars = store
        .create("cars".to_string(), "Cars".to_string(), None)
        .unwrap();
    assert_eq!(cars, 1);
    let sedan = store
        .create("sedan".to_string(), "Sedan".to_string(), Some(1))
        .unwrap();
    assert_eq!(sedan, 2);
    let suv = store
        .create("suv".to_string(), "SUV".to_string(), Some(1))
        .unwrap();
    assert_eq!(suv, 3);

    let forest = build_tree(&store, None).unwrap();
    assert_eq!(forest.len(), 1);
    let root = &forest[0];
    assert_eq!(root.name, "cars");
    assert_eq!(root.display_name, "Cars");
    assert_eq!(root.children.len(), 2);
    assert_eq!(root.children[0].name, "sedan");
    assert_eq!(root.children[0].display_name, "Sedan");
    assert!(root.children[0].children.is_empty());
    assert_eq!(root.children[1].name, "suv");
    assert_eq!(root.children[1].display_name, "SUV");
    assert!(root.children[1].children.is_empty());
}

#[test]
fn deep_chain_nests_one_child_per_level() {
    let depth: usize = 12;
    let mut store = CategoryStore::new();
    let mut parent: Option<i64> = None;
    for level in 0..depth {
        let id = store
            .create(format!("c{}", level), format!("C{}", level), parent)
            .unwrap();
        parent = Some(id);
    }

    let forest = build_tree(&store, None).unwrap();
    assert_eq!(forest.len(), 1);
    let mut level: usize = 0;
    let mut cursor = &forest[0];
    loop {
        assert_eq!(cursor.name, format!("c{}", level));
        if cursor.children.is_empty() {
            break;
        }
        assert_eq!(cursor.children.len(), 1);
        cursor = &cursor.children[0];
        level += 1;
    }
    assert_eq!(level, depth - 1);
    assert_eq!(count_nodes(&forest), depth);
}

#[test]
fn node_count_equals_row_count() {
    let mut store = CategoryStore::new();
    let a = store.create("a".to_string(), "A".to_string(), None).unwrap();
    let b = store.create("b".to_string(), "B".to_string(), None).unwrap();
    let aa = store
        .create("aa".to_string(), "AA".to_string(), Some(a))
        .unwrap();
    store
        .create("ab".to_string(), "AB".to_string(), Some(a))
        .unwrap();
    store
        .create("aaa".to_string(), "AAA".to_string(), Some(aa))
        .unwrap();
    store
        .create("ba".to_string(), "BA".to_string(), Some(b))
        .unwrap();

    let forest = build_tree(&store, None).unwrap();
    assert_eq!(count_nodes(&forest), 6);
}

#[test]
fn children_follow_store_order() {
    let mut store = CategoryStore::new();
    let root = store
        .create("root".to_string(), "Root".to_string(), None)
        .unwrap();
    for name in ["one", "two", "three"] {
        store
            .create(name.to_string(), name.to_uppercase(), Some(root))
            .unwrap();
    }
    let forest = build_tree(&store, None).unwrap();
    let kids = &forest[0].children;
    let names: Vec<&str> = kids.iter().map(|k| k.name.as_str()).collect();
    assert_eq!(names, vec!["one", "two", "three"]);
}

#[test]
fn rebuild_without_writes_is_identical() {
    let mut store = CategoryStore::new();
    let root = store
        .create("root".to_string(), "Root".to_string(), None)
        .unwrap();
    let kid = store
        .create("kid".to_string(), "Kid".to_string(), Some(root))
        .unwrap();
    store
        .create("grandkid".to_string(), "Grandkid".to_string(), Some(kid))
        .unwrap();
    store
        .create("kid2".to_string(), "Kid Two".to_string(), Some(root))
        .unwrap();

    let first = build_tree(&store, None).unwrap();
    let second = build_tree(&store, None).unwrap();
    assert!(first == second);
}

#[test]
fn subtree_listing_starts_below_the_given_parent() {
    let mut store = CategoryStore::new();
    let root = store
        .create("root".to_string(), "Root".to_string(), None)
        .unwrap();
    let kid = store
        .create("kid".to_string(), "Kid".to_string(), Some(root))
        .unwrap();
    store
        .create("grandkid".to_string(), "Grandkid".to_string(), Some(kid))
        .unwrap();

    let forest = build_tree(&store, Some(root)).unwrap();
    assert_eq!(forest.len(), 1);
    assert_eq!(forest[0].name, "kid");
    assert_eq!(forest[0].children.len(), 1);
    assert_eq!(forest[0].children[0].name, "grandkid");
}

#[test]
fn listing_under_an_unknown_parent_is_empty() {
    let mut store = CategoryStore::new();
    store
        .create("cars".to_string(), "Cars".to_string(), None)
        .unwrap();
    let forest = build_tree(&store, Some(99)).unwrap();
    assert!(forest.is_empty());
}

#[test]
fn unavailable_store_fails_the_whole_listing() {
    let mut store = CategoryStore::new();
    store
        .create("cars".to_string(), "Cars".to_string(), None)
        .unwrap();
    store.set_available(false);
    let r = build_tree(&store, None);
    assert!(matches!(r, Err(StoreError::StoreUnavailable)));
    store.set_available(true);
    assert_eq!(build_tree(&store, None).unwrap().len(), 1);
}

#[test]
fn unavailable_store_rejects_inserts() {
    let mut store = CategoryStore::new();
    store.set_available(false);
    let r = store.create("cars".to_string(), "Cars".to_string(), None);
    assert!(matches!(r, Err(StoreError::StoreUnavailable)));
}

#[test]
fn unknown_parent_reference_is_rejected() {
    let mut store = CategoryStore::new();
    let r = store.create("lost".to_string(), "Lost".to_string(), Some(99));
    assert!(matches!(r, Err(StoreError::PersistenceError)));
    let forest = build_tree(&store, None).unwrap();
    assert!(forest.is_empty());
}
