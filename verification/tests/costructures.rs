use chronofold::{Costructures, IndexShift, LocalIndex};

type Streams = Costructures<usize>;

#[test]
fn set_and_get() {
    let mut map = Streams::new();
    map.set_author(LocalIndex(10), 0);
    assert_eq!(None, map.get_author(&LocalIndex(5)));
    assert_eq!(Some(0), map.get_author(&LocalIndex(10)));
    assert_eq!(Some(0), map.get_author(&LocalIndex(15)));
    assert_eq!(None, map.get_index_shift(&LocalIndex(15)));

    map.set_next_index(LocalIndex(42), None);
    assert_eq!(None, map.get_next_index(&LocalIndex(42)));

    map.set_next_index(LocalIndex(42), Some(LocalIndex(50)));
    map.set_next_index(LocalIndex(50), Some(LocalIndex(1)));
    assert_eq!(Some(LocalIndex(50)), map.get_next_index(&LocalIndex(42)));
    assert_eq!(Some(LocalIndex(1)), map.get_next_index(&LocalIndex(50)));

    assert_eq!(Some(LocalIndex(1)), map.get_next_index(&LocalIndex(0)));
}

#[test]
fn test_missing_compaction() {
    let mut m1 = Streams::new();
    let mut m2 = Streams::new();
    m1.set_index_shift(LocalIndex(20), IndexShift(2));
    m2.set_index_shift(LocalIndex(20), IndexShift(2));
    assert_eq!(m1, m2);

    m1.set_index_shift(LocalIndex(10), IndexShift(1));
    m1.set_index_shift(LocalIndex(15), IndexShift(1));
    m2.set_index_shift(LocalIndex(15), IndexShift(1));
    m2.set_index_shift(LocalIndex(10), IndexShift(1));
    assert_ne!(m1, m2);
}

#[test]
fn default_reference_is_the_previous_index() {
    let map = Streams::new();
    assert_eq!(Some(LocalIndex(6)), map.get_reference(&LocalIndex(7)));
}

#[test]
fn reference_round_trip() {
    let mut map = Streams::new();
    map.set_reference(LocalIndex(9), Some(LocalIndex(3)));
    assert_eq!(Some(LocalIndex(3)), map.get_reference(&LocalIndex(9)));
    assert_eq!(Some(LocalIndex(7)), map.get_reference(&LocalIndex(8)));
    map.set_reference(LocalIndex(9), None);
    assert_eq!(None, map.get_reference(&LocalIndex(9)));
}

#[test]
fn default_values_are_not_stored() {
    let mut map = Streams::new();
    map.set_next_index(LocalIndex(4), Some(LocalIndex(9)));
    assert_ne!(Streams::new(), map);
    map.set_next_index(LocalIndex(4), Some(LocalIndex(5)));
    assert_eq!(Streams::new(), map);
    map.set_reference(LocalIndex(4), Some(LocalIndex(3)));
    assert_eq!(Streams::new(), map);
}

#[test]
fn a_target_equal_to_its_key_reads_as_none() {
    let mut map = Streams::new();
    map.set_next_index(LocalIndex(4), Some(LocalIndex(4)));
    assert_eq!(None, map.get_next_index(&LocalIndex(4)));
}

#[test]
fn redundant_range_writes_are_elided() {
    let mut m1 = Streams::new();
    let mut m2 = Streams::new();
    m1.set_author(LocalIndex(0), 3);
    m2.set_author(LocalIndex(0), 3);
    m2.set_author(LocalIndex(5), 3);
    assert_eq!(m1, m2);
    m2.set_author(LocalIndex(5), 4);
    assert_ne!(m1, m2);
    assert_eq!(Some(3), m2.get_author(&LocalIndex(4)));
    assert_eq!(Some(4), m2.get_author(&LocalIndex(5)));
    assert_eq!(Some(4), m2.get_author(&LocalIndex(100)));
}

#[test]
fn streams_do_not_interfere() {
    let mut map = Streams::new();
    map.set_author(LocalIndex(0), 7);
    map.set_index_shift(LocalIndex(0), IndexShift(0));
    map.set_index_shift(LocalIndex(3), IndexShift(2));
    map.set_next_index(LocalIndex(3), None);
    map.set_reference(LocalIndex(3), Some(LocalIndex(1)));
    assert_eq!(Some(7), map.get_author(&LocalIndex(3)));
    assert_eq!(Some(IndexShift(0)), map.get_index_shift(&LocalIndex(2)));
    assert_eq!(Some(IndexShift(2)), map.get_index_shift(&LocalIndex(3)));
    assert_eq!(None, map.get_next_index(&LocalIndex(3)));
    assert_eq!(Some(LocalIndex(1)), map.get_reference(&LocalIndex(3)));
    assert_eq!(Some(LocalIndex(3)), map.get_next_index(&LocalIndex(2)));
}

#[test]
fn process_relative_reads_offsets() {
    assert_eq!(Some(LocalIndex(8)), Streams::process_relative(&LocalIndex(7), None, 1));
    assert_eq!(None, Streams::process_relative(&LocalIndex(7), Some(0), 1));
    assert_eq!(Some(LocalIndex(12)), Streams::process_relative(&LocalIndex(7), Some(5), 1));
    assert_eq!(
        Some(LocalIndex(5)),
        Streams::process_relative(&LocalIndex(7), Some(usize::MAX - 1), 1)
    );
}

#[test]
fn clone_is_equal() {
    let mut map = Streams::new();
    map.set_author(LocalIndex(2), 1);
    map.set_next_index(LocalIndex(2), None);
    assert_eq!(map, map.clone());
}
