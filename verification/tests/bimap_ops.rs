//! Behavioural tests of the bidirectional map, exercised with borrowed
//! string slices and with integers.

use bimap::BiMap;
use bimap::CollisionError;

#[test]
fn create() {
    let map: BiMap<i32, i32> = BiMap::new();

    assert_eq!(map.len(), 0);
}

#[test]
fn insert_single() {
    let mut map: BiMap<&str, &str> = BiMap::new();
    let _ = map.insert_key("abc", "xyz");

    assert_eq!(map.get_key(&"abc"), Some(&"xyz"));
    assert_eq!(map.get_value(&"xyz"), Some(&"abc"));
    assert_eq!(map.len(), 1);

    let mut map: BiMap<&str, &str> = BiMap::new();
    let _ = map.insert_value("xyz", "abc");

    assert_eq!(map.get_key(&"abc"), Some(&"xyz"));
    assert_eq!(map.get_value(&"xyz"), Some(&"abc"));
    assert_eq!(map.len(), 1);
}

#[test]
fn insert_repeat() {
    let mut map: BiMap<&str, &str> = BiMap::new();
    let _ = map.insert_key("abc", "xyz");
    let _ = map.insert_key("abc", "xyz");

    assert_eq!(map.get_key(&"abc"), Some(&"xyz"));
    assert_eq!(map.get_value(&"xyz"), Some(&"abc"));
    assert_eq!(map.len(), 1);
}

#[test]
fn insert_other_value_rejected() {
    let mut map: BiMap<&str, &str> = BiMap::new();
    assert_eq!(map.insert_key("abc", "xyz"), Ok(()));
    assert_eq!(map.insert_key("abc", "123"), Err(CollisionError));

    assert_eq!(map.get_key(&"abc"), Some(&"xyz"));
    assert_eq!(map.get_value(&"123"), None);
    assert_eq!(map.len(), 1);
}

#[test]
fn insert_other_key_rejected() {
    let mut map: BiMap<&str, &str> = BiMap::new();
    assert_eq!(map.insert_key("abc", "xyz"), Ok(()));
    assert_eq!(map.insert_key("def", "xyz"), Err(CollisionError));

    assert_eq!(map.get_key(&"def"), None);
    assert_eq!(map.get_value(&"xyz"), Some(&"abc"));
    assert_eq!(map.len(), 1);
}

#[test]
fn insert_value_collision_rejected() {
    let mut map: BiMap<&str, &str> = BiMap::new();
    assert_eq!(map.insert_value("xyz", "abc"), Ok(()));
    assert_eq!(map.insert_value("123", "abc"), Err(CollisionError));

    assert_eq!(map.get_key(&"abc"), Some(&"xyz"));
    assert_eq!(map.len(), 1);
}

#[test]
fn remove() {
    let mut map: BiMap<&str, &str> = BiMap::new();
    let _ = map.insert_key("abc", "xyz");

    assert_eq!(map.remove(&"abc"), Some("xyz"));
    assert_eq!(map.get_key(&"abc"), None);
    assert_eq!(map.get_value(&"xyz"), None);
    assert_eq!(map.len(), 0);
}

#[test]
fn remove_add() {
    let mut map: BiMap<&str, &str> = BiMap::new();
    let _ = map.insert_key("abc", "xyz");
    map.remove(&"abc");
    let _ = map.insert_key("abc", "xyz");

    assert_eq!(map.get_key(&"abc"), Some(&"xyz"));
    assert_eq!(map.get_value(&"xyz"), Some(&"abc"));
    assert_eq!(map.len(), 1);
}

#[test]
fn remove_empty() {
    let mut map: BiMap<&str, &str> = BiMap::new();

    assert_eq!(map.remove(&"abc"), None);
    assert_eq!(map.len(), 0);
    assert_eq!(map.remove_value(&"xyz"), None);
    assert_eq!(map.len(), 0);
}

#[test]
fn remove_value_deletes_both_sides() {
    let mut map: BiMap<&str, &str> = BiMap::new();
    let _ = map.insert_key("abc", "xyz");

    assert_eq!(map.remove_value(&"xyz"), Some("abc"));
    assert_eq!(map.get_key(&"abc"), None);
    assert_eq!(map.get_value(&"xyz"), None);
    assert_eq!(map.len(), 0);
}

#[test]
fn get_empty() {
    let map: BiMap<&str, &str> = BiMap::new();

    assert_eq!(map.get_key(&"abc"), None);
    assert_eq!(map.get_value(&"xyz"), None);
}

#[test]
fn update() {
    let mut map: BiMap<&str, &str> = BiMap::new();
    let _ = map.insert_key("abc", "xyz");
    let _ = map.update_key(&"abc", "def");

    assert_eq!(map.get_key(&"abc"), Some(&"def"));
    assert_eq!(map.get_value(&"xyz"), None);
    assert_eq!(map.get_value(&"def"), Some(&"abc"));
    assert_eq!(map.len(), 1);
}

#[test]
fn update_returns_previous_value() {
    let mut map: BiMap<&str, &str> = BiMap::new();
    let _ = map.insert_key("abc", "xyz");

    assert_eq!(map.update_key(&"abc", "def"), Ok(Some("xyz")));
    assert_eq!(map.update_key(&"abc", "def"), Ok(Some("def")));
}

#[test]
fn update_absent_key_inserts() {
    let mut map: BiMap<&str, &str> = BiMap::new();

    assert_eq!(map.update_key(&"abc", "xyz"), Ok(None));
    assert_eq!(map.get_key(&"abc"), Some(&"xyz"));
    assert_eq!(map.get_value(&"xyz"), Some(&"abc"));
    assert_eq!(map.len(), 1);
}

#[test]
fn update_collision_changes_nothing() {
    let mut map: BiMap<&str, &str> = BiMap::new();
    let _ = map.insert_key("abc", "xyz");
    let _ = map.insert_key("def", "uvw");

    assert_eq!(map.update_key(&"abc", "uvw"), Err(CollisionError));
    assert_eq!(map.get_key(&"abc"), Some(&"xyz"));
    assert_eq!(map.get_key(&"def"), Some(&"uvw"));
    assert_eq!(map.len(), 2);
}

#[test]
fn update_value_rebinds_key() {
    let mut map: BiMap<&str, &str> = BiMap::new();
    let _ = map.insert_key("abc", "xyz");

    assert_eq!(map.update_value(&"xyz", "ghi"), Ok(Some("abc")));
    assert_eq!(map.get_value(&"xyz"), Some(&"ghi"));
    assert_eq!(map.get_key(&"abc"), None);
    assert_eq!(map.get_key(&"ghi"), Some(&"xyz"));
    assert_eq!(map.len(), 1);
}

#[test]
fn update_value_collision_changes_nothing() {
    let mut map: BiMap<&str, &str> = BiMap::new();
    let _ = map.insert_key("abc", "xyz");

    assert_eq!(map.update_value(&"uvw", "abc"), Err(CollisionError));
    assert_eq!(map.get_key(&"abc"), Some(&"xyz"));
    assert_eq!(map.len(), 1);
}

#[test]
fn round_trip_empties_the_map() {
    let mut map: BiMap<i32, i32> = BiMap::new();
    assert_eq!(map.insert_key(1, 10), Ok(()));
    assert_eq!(map.insert_key(2, 20), Ok(()));
    assert_eq!(map.insert_key(3, 30), Ok(()));
    assert_eq!(map.len(), 3);

    assert_eq!(map.remove(&1), Some(10));
    assert_eq!(map.remove(&2), Some(20));
    assert_eq!(map.remove(&3), Some(30));

    assert_eq!(map.len(), 0);
    assert_eq!(map.get_key(&1), None);
    assert_eq!(map.get_key(&2), None);
    assert_eq!(map.get_key(&3), None);
    assert_eq!(map.get_value(&10), None);
    assert_eq!(map.get_value(&20), None);
    assert_eq!(map.get_value(&30), None);
}

#[test]
fn eq() {
    let map1: BiMap<&str, &str> = BiMap::new();
    let map2: BiMap<&str, &str> = BiMap::new();

    assert_eq!(map1, map2);

    let mut map1 = map1;
    let mut map2 = map2;
    let _ = map1.insert_key("abc", "xyz");
    let _ = map2.insert_key("abc", "xyz");

    assert_eq!(map1, map2);
}

#[test]
fn eq_ignores_insertion_order() {
    let mut map1: BiMap<i32, i32> = BiMap::new();
    let _ = map1.insert_key(1, 10);
    let _ = map1.insert_key(2, 20);

    let mut map2: BiMap<i32, i32> = BiMap::new();
    let _ = map2.insert_key(2, 20);
    let _ = map2.insert_key(1, 10);

    assert_eq!(map1, map2);
}

#[test]
fn ne_on_different_pairs() {
    let mut map1: BiMap<i32, i32> = BiMap::new();
    let _ = map1.insert_key(1, 10);

    let mut map2: BiMap<i32, i32> = BiMap::new();
    let _ = map2.insert_key(1, 20);

    assert_ne!(map1, map2);
    assert_ne!(map1, BiMap::new());
}

#[test]
fn clone() {
    let mut map1: BiMap<&str, &str> = BiMap::new();
    let map2 = map1.clone();

    assert_eq!(map1, map2);

    let _ = map1.insert_key("abc", "def");
    let map2 = map1.clone();

    assert_eq!(map1, map2);
}

#[test]
fn clone_is_independent() {
    let mut map1: BiMap<&str, &str> = BiMap::new();
    let _ = map1.insert_key("abc", "xyz");
    let map2 = map1.clone();

    let _ = map1.insert_key("def", "uvw");

    assert_eq!(map1.len(), 2);
    assert_eq!(map2.len(), 1);
    assert_eq!(map2.get_key(&"def"), None);
    assert_eq!(map2.get_key(&"abc"), Some(&"xyz"));
}
