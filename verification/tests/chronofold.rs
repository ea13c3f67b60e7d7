use chronofold::{
    Author, AuthorIndex, Change, Chronofold, ChronofoldError, IndexRange, LocalIndex, LogIndex,
    Op, OpPayload, Timestamp,
};

fn stamp(idx: usize, author: u8) -> Timestamp<u8> {
    Timestamp::new(AuthorIndex(idx), author)
}

fn with_text(text: &str) -> Chronofold<u8, char> {
    let mut cfold = Chronofold::<u8, char>::default();
    cfold.session(1).extend(text.chars().collect());
    cfold
}

#[test]
fn new_chronofold_holds_a_root() {
    let cfold = Chronofold::<u8, char>::new(7);
    assert_eq!(Some(&Change::Root), cfold.get(LocalIndex(0)));
    assert_eq!(None, cfold.get(LocalIndex(1)));
    assert_eq!(Some(stamp(0, 7)), cfold.timestamp(LocalIndex(0)));
    assert_eq!(None, cfold.timestamp(LocalIndex(1)));
    assert_eq!(Some(AuthorIndex(0)), cfold.version().get(&7));
    assert_eq!(Some(LocalIndex(0)), cfold.last_index());
    assert!(cfold.is_empty());
    assert_eq!(0, cfold.len());
    assert_eq!("", cfold.to_string());
    assert_eq!(Chronofold::<u8, char>::new(0), Chronofold::<u8, char>::default());
}

#[test]
fn timestamps_and_log_indices_determine_each_other() {
    let mut cfold = with_text("abc");
    cfold.apply(Op::insert(stamp(2, 5), Some(stamp(1, 1)), 'x')).unwrap();
    cfold.apply(Op::insert(stamp(4, 5), Some(stamp(2, 5)), 'y')).unwrap();
    cfold.session(1).push_back('d');
    let len = cfold.iter_changes().len();
    assert_eq!(7, len);
    for i in 0..len {
        let index = LocalIndex(i);
        let timestamp = cfold.timestamp(index).unwrap();
        assert_eq!(Some(index), cfold.log_index(&timestamp));
    }
    assert_eq!(Some(stamp(2, 5)), cfold.timestamp(LocalIndex(4)));
    assert_eq!(Some(stamp(4, 5)), cfold.timestamp(LocalIndex(5)));
    assert_eq!(Some(stamp(6, 1)), cfold.timestamp(LocalIndex(6)));
    assert_eq!(Some(LocalIndex(4)), cfold.log_index(&stamp(2, 5)));
    assert_eq!(None, cfold.log_index(&stamp(3, 5)));
    assert_eq!(None, cfold.log_index(&stamp(100, 1)));
}

#[test]
fn applying_twice_leaves_the_chronofold_unchanged() {
    let mut cfold = with_text("ab");
    let op = Op::insert(stamp(3, 2), Some(stamp(1, 1)), 'x');
    assert_eq!(Ok(()), cfold.apply(op.clone()));
    let before = cfold.clone();
    assert_eq!(
        Err(ChronofoldError::ExistingTimestamp(op.clone())),
        cfold.apply(op)
    );
    assert_eq!(before, cfold);
}

#[test]
fn rejected_ops_leave_the_chronofold_unchanged() {
    let mut cfold = with_text("ab");
    let before = cfold.clone();
    let future = Op::insert(stamp(9, 2), Some(stamp(1, 1)), 'x');
    assert_eq!(
        Err(ChronofoldError::FutureTimestamp(future.clone())),
        cfold.apply(future)
    );
    let unknown = Op::<u8, char>::delete(stamp(3, 2), stamp(2, 9));
    assert_eq!(
        Err(ChronofoldError::UnknownReference(unknown.clone())),
        cfold.apply(unknown)
    );
    assert_eq!(before, cfold);
    assert_eq!(3, cfold.iter_changes().len());
}

#[test]
fn a_timestamp_at_the_end_of_the_log_is_not_in_the_future() {
    let mut cfold = with_text("ab");
    assert_eq!(Ok(()), cfold.apply(Op::insert(stamp(3, 2), Some(stamp(2, 1)), 'c')));
    assert_eq!("abc", cfold.to_string());
}

#[test]
fn the_existing_timestamp_is_checked_first() {
    let mut cfold = with_text("a");
    // The root's timestamp exists; the reference does not.
    let op = Op::insert(stamp(0, 0), Some(stamp(5, 5)), 'x');
    assert_eq!(
        Err(ChronofoldError::ExistingTimestamp(op.clone())),
        cfold.apply(op)
    );
}

#[test]
fn applying_appends_and_keeps_what_was_there() {
    let mut cfold = with_text("abc");
    let changes = cfold.iter_changes().to_vec();
    let stamps: Vec<_> = (0..4).map(|i| cfold.timestamp(LocalIndex(i))).collect();
    let ops_before: Vec<Op<u8, char>> = all_ops(&cfold);

    cfold.apply(Op::insert(stamp(2, 2), Some(stamp(1, 1)), 'x')).unwrap();
    cfold.apply(Op::<u8, char>::delete(stamp(3, 2), stamp(2, 1))).unwrap();
    cfold.session(1).push_front('y');

    let after = cfold.iter_changes().to_vec();
    assert_eq!(7, after.len());
    assert_eq!(changes[..], after[..4]);
    for i in 0..4 {
        assert_eq!(stamps[i], cfold.timestamp(LocalIndex(i)));
    }
    assert_eq!(ops_before[..], all_ops(&cfold)[..4]);
}

fn all_ops(cfold: &Chronofold<u8, char>) -> Vec<Op<u8, char>> {
    let mut ops = cfold.iter_ops::<&char>(IndexRange::full());
    let mut collected = Vec::new();
    while let Some(op) = ops.next() {
        collected.push(op.cloned());
    }
    collected
}

#[test]
fn the_same_ops_in_the_same_order_give_equal_chronofolds() {
    let mut source = with_text("abc");
    source.session(2).remove(LocalIndex(2));
    source.session(3).insert_after(LocalIndex(1), 'x');
    let ops = all_ops(&source);

    let mut first = Chronofold::<u8, char>::default();
    let mut second = Chronofold::<u8, char>::default();
    for op in ops.iter().skip(1) {
        first.apply(op.clone()).unwrap();
        second.apply(op.clone()).unwrap();
    }
    assert_eq!(first, second);
    assert_eq!("axc", first.to_string());
    assert_eq!(source.to_string(), first.to_string());
}

#[test]
fn concurrent_inserts_converge() {
    let base = with_text("ab");
    let ops = vec![
        Op::insert(stamp(3, 2), Some(stamp(1, 1)), 'x'),
        Op::insert(stamp(3, 3), Some(stamp(1, 1)), 'y'),
        Op::insert(stamp(4, 3), Some(stamp(3, 3)), 'z'),
        Op::insert(stamp(3, 4), Some(stamp(2, 1)), 'w'),
    ];
    let orders: [[usize; 4]; 4] = [[0, 1, 2, 3], [1, 2, 0, 3], [3, 1, 0, 2], [1, 0, 3, 2]];
    for order in orders {
        let mut cfold = base.clone();
        for i in order {
            cfold.apply(ops[i].clone()).unwrap();
        }
        assert_eq!("ayzxbw", cfold.to_string());
    }
}

#[test]
fn remote_root_starts_a_new_chain() {
    let mut cfold = with_text("a");
    cfold.apply(Op::<u8, char>::root(stamp(2, 4))).unwrap();
    assert_eq!(Some(&Change::Root), cfold.get(LocalIndex(2)));
    assert_eq!(None, cfold.index_after(LocalIndex(2)));
    cfold.apply(Op::insert(stamp(3, 4), Some(stamp(2, 4)), 'q')).unwrap();
    assert_eq!(Some(LocalIndex(3)), cfold.index_after(LocalIndex(2)));
    assert_eq!("a", cfold.to_string());
}

#[test]
fn find_predecessor_follows_the_placement_rules() {
    let mut cfold = with_text("ab");
    cfold.apply(Op::insert(stamp(3, 5), Some(stamp(1, 1)), 'x')).unwrap();
    cfold.apply(Op::insert(stamp(4, 5), Some(stamp(3, 5)), 'y')).unwrap();
    // causal order: 0 1 3 4 2
    // A delete goes directly behind its target.
    assert_eq!(
        Some(LocalIndex(1)),
        cfold.find_predecessor(stamp(5, 9), Some(LocalIndex(1)), &Change::Delete)
    );
    // A root has no predecessor.
    assert_eq!(None, cfold.find_predecessor(stamp(5, 9), None, &Change::Root));
    // An insert with a smaller timestamp goes behind the subtree of its sibling.
    assert_eq!(
        Some(LocalIndex(4)),
        cfold.find_predecessor(stamp(3, 4), Some(LocalIndex(1)), &Change::Insert('n'))
    );
    // An insert with a greater timestamp goes directly behind its reference.
    assert_eq!(
        Some(LocalIndex(1)),
        cfold.find_predecessor(stamp(3, 6), Some(LocalIndex(1)), &Change::Insert('n'))
    );
    // Equal indices are ordered by author.
    assert_eq!(
        Some(LocalIndex(1)),
        cfold.find_predecessor(stamp(5, 1), Some(LocalIndex(1)), &Change::Insert('n'))
    );
}

#[test]
fn tombstones_preempt_inserts() {
    let mut cfold = with_text("ab");
    cfold.apply(Op::<u8, char>::delete(stamp(3, 2), stamp(1, 1))).unwrap();
    // causal order: 0 1 3 2
    assert_eq!(
        Some(LocalIndex(3)),
        cfold.find_predecessor(stamp(9, 9), Some(LocalIndex(1)), &Change::Insert('n'))
    );
    assert_eq!(Some(LocalIndex(3)), cfold.find_last_delete(LocalIndex(1)));
    assert_eq!(None, cfold.find_last_delete(LocalIndex(2)));
}

#[test]
fn apply_change_returns_the_new_index() {
    let mut cfold = with_text("ab");
    let index = cfold.apply_change(stamp(3, 2), Some(LocalIndex(1)), Change::Insert('x'));
    assert_eq!(LocalIndex(3), index);
    assert_eq!("axb", cfold.to_string());
    assert_eq!(Some(stamp(3, 2)), cfold.timestamp(index));
}

#[test]
fn apply_local_changes_appends_a_run() {
    let mut cfold = with_text("ab");
    let last = cfold.apply_local_changes(
        3,
        LocalIndex(1),
        vec![Change::Insert('x'), Change::Insert('y'), Change::Insert('z')],
    );
    assert_eq!(Some(LocalIndex(5)), last);
    assert_eq!("axyzb", cfold.to_string());
    for i in 3..6 {
        assert_eq!(Some(stamp(i, 3)), cfold.timestamp(LocalIndex(i)));
    }
    assert_eq!(None, cfold.apply_local_changes(3, LocalIndex(1), Vec::new()));
    assert_eq!(Some(AuthorIndex(5)), cfold.version().get(&3));
}

#[test]
fn the_local_path_and_the_general_path_agree() {
    let mut local = with_text("ab");
    local.session(2).insert_after(LocalIndex(1), 'x');
    let mut general = with_text("ab");
    general.apply(Op::insert(stamp(3, 2), Some(stamp(1, 1)), 'x')).unwrap();
    assert_eq!(local, general);
}

#[test]
fn authors_convert_to_numbers_and_back() {
    assert_eq!(200usize, 200u8.as_usize());
    assert_eq!(200u8, <u8 as Author>::from(200));
    assert_eq!(44u8, <u8 as Author>::from(300));
    assert_eq!(12345usize, 12345usize.as_usize());
    assert_eq!(12345usize, <usize as Author>::from(12345));
}

#[test]
fn timestamps_are_ordered_by_index_then_author() {
    assert!(stamp(2, 1).is_after(&stamp(1, 9)));
    assert!(stamp(2, 3).is_after(&stamp(2, 1)));
    assert!(!stamp(2, 1).is_after(&stamp(2, 1)));
    assert!(!stamp(1, 9).is_after(&stamp(2, 1)));
    assert!(stamp(2, 1).same(&stamp(2, 1)));
    assert!(!stamp(2, 1).same(&stamp(2, 2)));
    assert!(!stamp(2, 1).same(&stamp(3, 1)));
}

#[test]
fn take_max_keeps_the_greater_index() {
    let mut index = AuthorIndex(3);
    index.take_max(&AuthorIndex(5));
    assert_eq!(AuthorIndex(5), index);
    index.take_max(&AuthorIndex(4));
    assert_eq!(AuthorIndex(5), index);
    assert_eq!(5, index.index());
    let mut local = LocalIndex(7);
    local.take_max(&LocalIndex(7));
    assert_eq!(LocalIndex(7), local);
    assert_eq!(7, local.index());
}

#[test]
fn payloads_know_their_reference() {
    let root: OpPayload<u8, char> = OpPayload::Root;
    assert_eq!(None, root.reference());
    let insert: OpPayload<u8, char> = OpPayload::Insert(Some(stamp(1, 1)), 'a');
    assert_eq!(Some(&stamp(1, 1)), insert.reference());
    let delete: OpPayload<u8, char> = OpPayload::Delete(stamp(2, 1));
    assert_eq!(Some(&stamp(2, 1)), delete.reference());
}

#[test]
fn ops_are_built_from_their_parts() {
    let id = stamp(3, 1);
    assert_eq!(Op { id, payload: OpPayload::<u8, char>::Root }, Op::root(id));
    assert_eq!(
        Op { id, payload: OpPayload::Insert(Some(stamp(1, 1)), 'a') },
        Op::insert(id, Some(stamp(1, 1)), 'a')
    );
    assert_eq!(
        Op { id, payload: OpPayload::<u8, char>::Delete(stamp(1, 1)) },
        Op::delete(id, stamp(1, 1))
    );
    assert_eq!(Op::new(id, OpPayload::<u8, char>::Root), Op::root(id));
    let value = 'q';
    let borrowed: Op<u8, &char> = Op::insert(id, None, &value);
    assert_eq!(Op::insert(id, None, 'q'), borrowed.cloned());
    let payload: OpPayload<u8, &char> = OpPayload::Delete(stamp(1, 1));
    assert_eq!(OpPayload::<u8, char>::Delete(stamp(1, 1)), payload.cloned());
}

#[test]
fn histories_with_tombstones_converge() {
    let base = with_text("abc");
    let ops: Vec<Op<u8, char>> = vec![
        Op::insert(stamp(4, 2), Some(stamp(2, 1)), 'x'),
        Op::delete(stamp(4, 3), stamp(2, 1)),
        Op::delete(stamp(4, 4), stamp(2, 1)),
        Op::insert(stamp(4, 5), Some(stamp(1, 1)), 'y'),
        Op::delete(stamp(4, 6), stamp(3, 1)),
        Op::insert(stamp(4, 7), Some(stamp(2, 1)), 'z'),
    ];
    let orders: [[usize; 6]; 5] = [
        [0, 1, 2, 3, 4, 5],
        [5, 4, 3, 2, 1, 0],
        [2, 0, 4, 1, 5, 3],
        [3, 5, 1, 0, 2, 4],
        [4, 2, 5, 3, 0, 1],
    ];
    for order in orders {
        let mut cfold = base.clone();
        for i in order {
            cfold.apply(ops[i].clone()).unwrap();
        }
        assert_eq!("ayzx", cfold.to_string());
        assert_eq!(4, cfold.len());
    }
}

#[test]
fn a_tombstone_of_the_root_hides_nothing() {
    let mut cfold = with_text("ab");
    cfold.apply(Op::<u8, char>::delete(stamp(3, 2), stamp(0, 0))).unwrap();
    cfold.apply(Op::insert(stamp(4, 2), Some(stamp(0, 0)), 'x')).unwrap();
    assert_eq!("xab", cfold.to_string());
}

#[test]
fn replicas_with_the_same_ops_have_the_same_version() {
    let base = with_text("ab");
    let ops: Vec<Op<u8, char>> = vec![
        Op::insert(stamp(3, 2), Some(stamp(1, 1)), 'x'),
        Op::delete(stamp(3, 3), stamp(2, 1)),
        Op::insert(stamp(3, 4), Some(stamp(0, 0)), 'y'),
    ];
    let mut first = base.clone();
    let mut second = base.clone();
    for i in [0, 1, 2] {
        first.apply(ops[i].clone()).unwrap();
    }
    for i in [2, 1, 0] {
        second.apply(ops[i].clone()).unwrap();
    }
    assert_eq!(first.version(), second.version());
    assert_eq!(first.version().iter(), second.version().iter());
    assert_eq!(first.to_string(), second.to_string());
}

#[test]
fn a_default_chronofold_has_a_root_by_the_default_author() {
    let mut cfold = Chronofold::<u8, char>::default();
    assert_eq!(Some(stamp(0, 0)), cfold.timestamp(LocalIndex(0)));
    assert_eq!(None, cfold.version().get(&1));
    let future = Op::insert(stamp(9, 1), Some(stamp(0, 0)), '.');
    assert_eq!(
        Err(ChronofoldError::FutureTimestamp(future.clone())),
        cfold.apply(future)
    );
    assert_eq!(Chronofold::<u8, char>::default(), cfold);
    assert_eq!(None, cfold.version().get(&1));
    assert_eq!(Ok(()), cfold.apply(Op::insert(stamp(1, 1), Some(stamp(0, 0)), '.')));
    assert_eq!(".", cfold.to_string());
    assert_eq!(Some(stamp(1, 1)), cfold.timestamp(LocalIndex(1)));
}
