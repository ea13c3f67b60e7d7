use std::cmp::Ordering;

use chronofold::{AuthorIndex, Chronofold, LocalIndex, Op, Timestamp, Version};

fn stamp(idx: usize, author: u8) -> Timestamp<u8> {
    Timestamp::new(AuthorIndex(idx), author)
}

fn version_of(stamps: &[(usize, u8)]) -> Version<u8> {
    let mut version = Version::new();
    for (idx, author) in stamps {
        version.inc(&stamp(*idx, *author));
    }
    version
}

#[test]
fn new_version_knows_nobody() {
    let version = Version::<u8>::new();
    assert_eq!(None, version.get(&0));
    assert!(version.iter().is_empty());
    assert_eq!(Version::<u8>::default(), version);
}

#[test]
fn inc_keeps_the_greater_index() {
    let mut version = Version::<u8>::new();
    version.inc(&stamp(5, 1));
    assert_eq!(Some(AuthorIndex(5)), version.get(&1));
    version.inc(&stamp(3, 1));
    assert_eq!(Some(AuthorIndex(5)), version.get(&1));
    version.inc(&stamp(8, 1));
    assert_eq!(Some(AuthorIndex(8)), version.get(&1));
    assert_eq!(None, version.get(&2));
}

#[test]
fn iter_lists_one_timestamp_per_author_in_order() {
    let version = version_of(&[(4, 9), (1, 3), (7, 5), (2, 3)]);
    assert_eq!(vec![stamp(2, 3), stamp(7, 5), stamp(4, 9)], version.iter());
}

#[test]
fn versions_are_partially_ordered() {
    let small = version_of(&[(1, 1)]);
    let big = version_of(&[(2, 1), (1, 2)]);
    let other = version_of(&[(5, 3)]);
    assert_eq!(Some(Ordering::Equal), small.partial_cmp(&version_of(&[(1, 1)])));
    assert_eq!(Some(Ordering::Greater), big.partial_cmp(&small));
    assert_eq!(Some(Ordering::Less), small.partial_cmp(&big));
    assert_eq!(None, small.partial_cmp(&other));
    assert!(big > small);
    assert!(small < big);
    assert!(!(small < other) && !(small > other));
    assert!(big.covers(&small));
    assert!(!small.covers(&big));
    assert!(small.covers(&Version::new()));
}

#[test]
fn equal_versions_do_not_depend_on_the_order_of_incs() {
    assert_eq!(version_of(&[(1, 1), (2, 2)]), version_of(&[(2, 2), (1, 1)]));
    assert_ne!(version_of(&[(1, 1), (2, 2)]), version_of(&[(1, 1), (3, 2)]));
    let version = version_of(&[(1, 1), (2, 2)]);
    assert_eq!(version, version.clone());
}

#[test]
fn chronofold_version_follows_applied_ops() {
    let mut cfold = Chronofold::<u8, char>::new(0);
    assert_eq!(Some(AuthorIndex(0)), cfold.version().get(&0));
    cfold.session(1).extend(vec!['a', 'b', 'c']);
    assert_eq!(Some(AuthorIndex(3)), cfold.version().get(&1));
    let op = Op::insert(stamp(2, 7), Some(stamp(1, 1)), 'x');
    cfold.apply(op).unwrap();
    assert_eq!(Some(AuthorIndex(2)), cfold.version().get(&7));
    assert_eq!(Some(AuthorIndex(3)), cfold.version().get(&1));
    let op = Op::insert(stamp(1, 7), Some(stamp(1, 1)), 'y');
    cfold.apply(op).unwrap();
    // The version never goes back.
    assert_eq!(Some(AuthorIndex(2)), cfold.version().get(&7));
}

#[test]
fn iter_newer_ops_yields_what_the_peer_has_not_seen() {
    let mut cfold = Chronofold::<u8, char>::default();
    cfold.session(1).extend(vec!['a', 'b']);
    let peer = cfold.version().clone();
    cfold.session(1).push_back('c');
    cfold.session(2).remove(LocalIndex(1));

    let newer: Vec<Op<u8, &char>> = cfold.iter_newer_ops(&peer);
    assert_eq!(
        vec![
            Op::insert(stamp(3, 1), Some(stamp(2, 1)), &'c'),
            Op::delete(stamp(4, 2), stamp(1, 1)),
        ],
        newer
    );

    let nothing: Vec<Op<u8, &char>> = cfold.iter_newer_ops(cfold.version());
    assert!(nothing.is_empty());

    let everything: Vec<Op<u8, &char>> = cfold.iter_newer_ops(&Version::new());
    assert_eq!(5, everything.len());
}

#[test]
fn replicas_converge_by_exchanging_newer_ops() {
    let mut left = Chronofold::<u8, char>::default();
    left.session(1).extend(vec!['a', 'b']);
    let mut right = left.clone();
    left.session(1).push_back('c');
    right.session(2).push_front('z');

    let for_right: Vec<Op<u8, char>> = left
        .iter_newer_ops(right.version())
        .into_iter()
        .map(Op::cloned)
        .collect();
    let for_left: Vec<Op<u8, char>> = right
        .iter_newer_ops(left.version())
        .into_iter()
        .map(Op::cloned)
        .collect();
    for op in for_right {
        right.apply(op).unwrap();
    }
    for op in for_left {
        left.apply(op).unwrap();
    }
    assert_eq!("zabc", left.to_string());
    assert_eq!("zabc", right.to_string());
    assert_eq!(left.version(), right.version());
}
