use chronofold::{
    AuthorIndex, Bound, Change, Chronofold, IndexRange, LocalIndex, Op, Ops, Timestamp,
};

fn chars(text: &str) -> Vec<char> {
    text.chars().collect()
}

fn collect_ops<'a>(mut ops: Ops<'a, u8, char, &'a char>) -> Vec<Op<u8, &'a char>> {
    let mut collected = Vec::new();
    while let Some(op) = ops.next() {
        collected.push(op);
    }
    collected
}

#[test]
fn iter_subtree() {
    let mut cfold = Chronofold::<u8, char>::default();
    cfold.session(1).extend(chars("013"));
    cfold.session(1).insert_after(LocalIndex(2), '2');
    assert_eq!(
        vec![LocalIndex(2), LocalIndex(4), LocalIndex(3)],
        cfold.iter_subtree(LocalIndex(2))
    );
}

#[test]
fn iter_ops() {
    let mut cfold = Chronofold::<u8, char>::default();
    cfold.session(1).extend(chars("Hi!"));
    let op0 = Op::root(Timestamp::new(AuthorIndex(0), 0));
    let op1 = Op::insert(
        Timestamp::new(AuthorIndex(1), 1),
        Some(Timestamp::new(AuthorIndex(0), 0)),
        &'H',
    );
    let op2 = Op::insert(
        Timestamp::new(AuthorIndex(2), 1),
        Some(Timestamp::new(AuthorIndex(1), 1)),
        &'i',
    );
    let op3 = Op::insert(
        Timestamp::new(AuthorIndex(3), 1),
        Some(Timestamp::new(AuthorIndex(2), 1)),
        &'!',
    );
    assert_eq!(
        vec![op0.clone(), op1.clone(), op2.clone()],
        collect_ops(cfold.iter_ops(IndexRange {
            start: Bound::Unbounded,
            end: Bound::Excluded(LocalIndex(3)),
        }))
    );
    assert_eq!(
        vec![op2, op3],
        collect_ops(cfold.iter_ops(IndexRange::from(LocalIndex(2))))
    );
}

#[test]
fn skip_while() {
    let items: Vec<i32> = (2..10).collect();
    let mut position = 0;
    let result = chronofold::skip_while(&items, &mut position, |i| i < &7);
    assert_eq!((5, Some(&7)), result);
    assert_eq!(vec![8, 9], items[position..].to_vec());

    let mut position2 = 0;
    let result = chronofold::skip_while(&items, &mut position2, |i| i < &20);
    assert_eq!((8, None), result);
}

#[test]
fn iter_ops_beyond_the_log_is_clipped() {
    let mut cfold = Chronofold::<u8, char>::default();
    cfold.session(1).extend(chars("ab"));
    let all = collect_ops(cfold.iter_ops(IndexRange {
        start: Bound::Unbounded,
        end: Bound::Excluded(LocalIndex(100)),
    }));
    assert_eq!(3, all.len());
    let none = collect_ops(cfold.iter_ops(IndexRange::from(LocalIndex(100))));
    assert!(none.is_empty());
}

#[test]
fn iter_ops_yields_deletes_with_their_target() {
    let mut cfold = Chronofold::<u8, char>::default();
    cfold.session(1).extend(chars("ab"));
    cfold.session(2).remove(LocalIndex(1));
    let ops = collect_ops(cfold.iter_ops(IndexRange::from(LocalIndex(3))));
    assert_eq!(
        vec![Op::delete(
            Timestamp::new(AuthorIndex(3), 2),
            Timestamp::new(AuthorIndex(1), 1)
        )],
        ops
    );
}

#[test]
fn causal_walk_visits_every_entry_once() {
    let mut cfold = Chronofold::<u8, char>::default();
    cfold.session(1).extend(chars("abc"));
    cfold.session(1).insert_after(LocalIndex(1), 'x');
    cfold.session(1).remove(LocalIndex(2));
    let mut walk = cfold.iter_log_indices_causal_range(IndexRange::full());
    let mut visited = vec![LocalIndex(0)];
    while let Some((_, index)) = walk.next() {
        visited.push(index);
    }
    assert_eq!(
        vec![
            LocalIndex(0),
            LocalIndex(1),
            LocalIndex(4),
            LocalIndex(2),
            LocalIndex(5),
            LocalIndex(3)
        ],
        visited
    );
    let mut sorted = visited.clone();
    sorted.sort();
    sorted.dedup();
    assert_eq!(6, sorted.len());
}

#[test]
fn causal_range_respects_bounds() {
    let mut cfold = Chronofold::<u8, char>::default();
    cfold.session(1).extend(chars("abcd"));
    let mut walk = cfold.iter_log_indices_causal_range(IndexRange {
        start: Bound::Excluded(LocalIndex(1)),
        end: Bound::Included(LocalIndex(3)),
    });
    let mut visited = Vec::new();
    while let Some((change, index)) = walk.next() {
        visited.push((change.clone(), index));
    }
    assert_eq!(
        vec![
            (Change::Insert('b'), LocalIndex(2)),
            (Change::Insert('c'), LocalIndex(3))
        ],
        visited
    );
}

#[test]
fn elements_skip_deleted_entries() {
    let mut cfold = Chronofold::<u8, char>::default();
    cfold.session(1).extend(chars("abc"));
    cfold.session(1).remove(LocalIndex(2));
    let mut iter = cfold.iter();
    let mut elements = Vec::new();
    while let Some((value, index)) = iter.next() {
        elements.push((*value, index));
    }
    assert_eq!(vec![('a', LocalIndex(1)), ('c', LocalIndex(3))], elements);
    assert_eq!(vec![&'a', &'c'], cfold.iter_elements());
    assert_eq!(2, cfold.len());
    assert!(!cfold.is_empty());
}

#[test]
fn iter_changes_is_the_log() {
    let mut cfold = Chronofold::<u8, char>::default();
    cfold.session(1).extend(chars("ab"));
    cfold.session(1).remove(LocalIndex(1));
    assert_eq!(
        vec![
            Change::Root,
            Change::Insert('a'),
            Change::Insert('b'),
            Change::Delete
        ],
        cfold.iter_changes().to_vec()
    );
}

#[test]
fn index_before_and_after() {
    let mut cfold = Chronofold::<u8, char>::default();
    cfold.session(1).extend(chars("abc"));
    cfold.session(1).insert_after(LocalIndex(1), 'x');
    // causal order: 0 1 4 2 3
    assert_eq!(Some(LocalIndex(0)), cfold.index_before(LocalIndex(0)));
    assert_eq!(None, cfold.index_before(LocalIndex(1)));
    assert_eq!(Some(LocalIndex(4)), cfold.index_before(LocalIndex(2)));
    assert_eq!(Some(LocalIndex(3)), cfold.index_before(LocalIndex(5)));
    assert_eq!(None, cfold.index_before(LocalIndex(6)));
    assert_eq!(Some(LocalIndex(4)), cfold.index_after(LocalIndex(1)));
    assert_eq!(Some(LocalIndex(2)), cfold.index_after(LocalIndex(4)));
    assert_eq!(None, cfold.index_after(LocalIndex(3)));
    assert_eq!(None, cfold.index_after(LocalIndex(5)));
    assert_eq!(Some(LocalIndex(4)), cfold.last_index());
    assert_eq!(LocalIndex(5), cfold.next_log_index());
}

#[test]
fn iter_ops_reads_its_bounds_in_log_order() {
    let mut cfold = Chronofold::<u8, char>::default();
    cfold.session(1).extend(chars("ab"));
    cfold.session(1).insert_after(LocalIndex(1), 'x');
    // causal order: 0 1 3 2
    let ids = |range: IndexRange| -> Vec<usize> {
        collect_ops(cfold.iter_ops(range))
            .into_iter()
            .map(|op| op.id.idx.0)
            .collect()
    };
    assert_eq!(
        vec![0, 1],
        ids(IndexRange { start: Bound::Unbounded, end: Bound::Included(LocalIndex(1)) })
    );
    assert_eq!(
        vec![0, 1, 2, 3],
        ids(IndexRange { start: Bound::Unbounded, end: Bound::Included(LocalIndex(3)) })
    );
    assert_eq!(
        vec![2, 3],
        ids(IndexRange { start: Bound::Excluded(LocalIndex(1)), end: Bound::Unbounded })
    );
    assert_eq!(
        vec![2],
        ids(IndexRange {
            start: Bound::Excluded(LocalIndex(1)),
            end: Bound::Excluded(LocalIndex(3)),
        })
    );
    assert_eq!(
        Vec::<usize>::new(),
        ids(IndexRange { start: Bound::Excluded(LocalIndex(3)), end: Bound::Unbounded })
    );
    assert_eq!(
        vec![0, 1, 2, 3],
        ids(IndexRange { start: Bound::Unbounded, end: Bound::Included(LocalIndex(usize::MAX)) })
    );
}
