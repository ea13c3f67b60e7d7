use chronofold::{LocalIndex, OffsetMap, RelativeNextIndex, RelativeReference};

type IdxMap = OffsetMap<LocalIndex, RelativeNextIndex>;

#[test]
fn get_default() {
    let map = IdxMap::new();
    assert_eq!(Some(LocalIndex(1)), map.get(&LocalIndex(0)));
}

#[test]
fn set_default() {
    let mut map = IdxMap::new();
    map.set(LocalIndex(1), Some(LocalIndex(2)));
    assert_eq!(Some(LocalIndex(2)), map.get(&LocalIndex(1)));
    assert_eq!(IdxMap::new(), map); // the default is not stored
}

#[test]
fn set_and_get_none() {
    let mut map = IdxMap::new();
    map.set(LocalIndex(42), None);
    assert_eq!(None, map.get(&LocalIndex(42)));
}

#[test]
fn set_and_get_value() {
    let mut map = IdxMap::new();
    map.set(LocalIndex(42), Some(LocalIndex(50)));
    map.set(LocalIndex(50), Some(LocalIndex(1)));
    assert_eq!(Some(LocalIndex(50)), map.get(&LocalIndex(42)));
    assert_eq!(Some(LocalIndex(1)), map.get(&LocalIndex(50)));
}

#[test]
fn reference_map_defaults_to_previous() {
    let mut map = OffsetMap::<LocalIndex, RelativeReference>::default();
    assert_eq!(Some(LocalIndex(4)), map.get(&LocalIndex(5)));
    map.set(LocalIndex(5), Some(LocalIndex(2)));
    assert_eq!(Some(LocalIndex(2)), map.get(&LocalIndex(5)));
    assert_eq!(Some(LocalIndex(5)), map.get(&LocalIndex(6)));
    map.set(LocalIndex(5), Some(LocalIndex(4)));
    assert_eq!(OffsetMap::<LocalIndex, RelativeReference>::new(), map);
}

#[test]
fn resetting_to_default_removes_the_entry() {
    let mut map = IdxMap::new();
    map.set(LocalIndex(3), Some(LocalIndex(9)));
    assert_ne!(IdxMap::new(), map);
    map.set(LocalIndex(3), Some(LocalIndex(4)));
    assert_eq!(IdxMap::new(), map);
}
