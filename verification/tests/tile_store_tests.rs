use simplan::tile_store::{KeySet, TileKey, TileStore};

fn key(x: i32, y: i32, zoom: u32) -> TileKey {
    TileKey { x, y, zoom }
}

#[test]
fn empty_store() {
    let s: TileStore<u8> = TileStore::new();
    assert_eq!(s.fetch_count(), 0);
    assert!(s.get(key(0, 0, 0)).is_none());
}

#[test]
fn insert_then_get() {
    let mut s: TileStore<&str> = TileStore::new();
    s.insert(key(1, 2, 12), "a");
    s.insert(key(2, 1, 12), "b");
    s.insert(key(1, 2, 13), "c");
    assert_eq!(s.fetch_count(), 3);
    assert_eq!(s.get(key(1, 2, 12)), Some(&"a"));
    assert_eq!(s.get(key(2, 1, 12)), Some(&"b"));
    assert_eq!(s.get(key(1, 2, 13)), Some(&"c"));
    assert!(s.get(key(2, 2, 12)).is_none());
}

#[test]
fn key_set_insert_and_remove() {
    let mut k = KeySet::new();
    assert!(k.insert(key(5, 5, 10)));
    assert!(!k.insert(key(5, 5, 10)));
    assert!(k.insert(key(5, 6, 10)));
    k.remove(key(5, 5, 10));
    assert!(k.insert(key(5, 5, 10)));
    k.remove(key(9, 9, 9));
    assert!(!k.insert(key(5, 6, 10)));
}

#[test]
fn insert_replaces_and_counts_every_store() {
    let mut s: TileStore<u8> = TileStore::new();
    s.insert(key(3, 4, 5), 1);
    s.insert(key(3, 4, 5), 2);
    assert_eq!(s.get(key(3, 4, 5)), Some(&2));
    assert_eq!(s.fetch_count(), 2);
}

#[test]
fn extreme_keys_are_distinct() {
    let mut s: TileStore<u8> = TileStore::new();
    s.insert(key(i32::MIN, i32::MAX, u32::MAX), 1);
    s.insert(key(i32::MAX, i32::MIN, 0), 2);
    s.insert(key(-1, -1, 1), 3);
    assert_eq!(s.get(key(i32::MIN, i32::MAX, u32::MAX)), Some(&1));
    assert_eq!(s.get(key(i32::MAX, i32::MIN, 0)), Some(&2));
    assert_eq!(s.get(key(-1, -1, 1)), Some(&3));
    assert!(s.get(key(-1, -1, 0)).is_none());
}
