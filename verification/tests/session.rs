use chronofold::{
    AuthorIndex, Bound, Change, Chronofold, IndexRange, LocalIndex, Op, Session, Timestamp,
};

fn chars(text: &str) -> Vec<char> {
    text.chars().collect()
}

fn with_text(text: &str) -> Chronofold<u8, char> {
    let mut cfold = Chronofold::<u8, char>::default();
    cfold.session(1).extend(chars(text));
    cfold
}

#[test]
fn new_session_starts_at_the_end_of_the_log() {
    let mut cfold = with_text("ab");
    let session = Session::new(3, &mut cfold);
    assert_eq!(3, session.author);
    assert_eq!(LocalIndex(3), session.first_index);
}

#[test]
fn push_back_appends() {
    let mut cfold = Chronofold::<u8, char>::default();
    let mut session = cfold.session(1);
    assert_eq!(LocalIndex(1), session.push_back('a'));
    assert_eq!(LocalIndex(2), session.push_back('b'));
    assert_eq!("ab", cfold.to_string());
}

#[test]
fn push_back_after_clear_goes_behind_the_root() {
    let mut cfold = with_text("ab");
    let mut session = cfold.session(1);
    session.clear();
    session.push_back('c');
    assert_eq!("c", cfold.to_string());
}

#[test]
fn push_front_prepends() {
    let mut cfold = with_text("bc");
    assert_eq!(LocalIndex(3), cfold.session(1).push_front('a'));
    assert_eq!("abc", cfold.to_string());
}

#[test]
fn insert_after_inserts_behind_the_index() {
    let mut cfold = with_text("ac");
    assert_eq!(LocalIndex(3), cfold.session(2).insert_after(LocalIndex(1), 'b'));
    assert_eq!("abc", cfold.to_string());
    assert_eq!(
        Some(Timestamp::new(AuthorIndex(3), 2)),
        cfold.timestamp(LocalIndex(3))
    );
}

#[test]
fn remove_appends_a_tombstone() {
    let mut cfold = with_text("abc");
    cfold.session(1).remove(LocalIndex(2));
    assert_eq!("ac", cfold.to_string());
    assert_eq!(Some(&Change::Delete), cfold.get(LocalIndex(4)));
    assert_eq!(Some(&Change::Insert('b')), cfold.get(LocalIndex(2)));
}

#[test]
fn extend_returns_the_last_index() {
    let mut cfold = Chronofold::<u8, char>::default();
    let mut session = cfold.session(1);
    assert_eq!(Some(LocalIndex(3)), session.extend(chars("abc")));
    assert_eq!(None, session.extend(Vec::new()));
    assert_eq!(Some(LocalIndex(4)), session.extend(chars("d")));
    assert_eq!("abcd", cfold.to_string());
}

#[test]
fn splice_replaces_a_range() {
    let mut cfold = with_text("foobar");
    let last = cfold.session(1).splice(
        IndexRange {
            start: Bound::Included(LocalIndex(2)),
            end: Bound::Excluded(LocalIndex(4)),
        },
        chars("uu"),
    );
    // Two tombstones, then the two inserts.
    assert_eq!(Some(LocalIndex(10)), last);
    assert_eq!("fuubar", cfold.to_string());
}

#[test]
fn splice_with_an_excluded_start() {
    let mut cfold = with_text("abcd");
    cfold.session(1).splice(
        IndexRange {
            start: Bound::Excluded(LocalIndex(1)),
            end: Bound::Included(LocalIndex(3)),
        },
        chars("X"),
    );
    assert_eq!("aXd", cfold.to_string());
}

#[test]
fn splice_of_everything_with_nothing_clears() {
    let mut cfold = with_text("abc");
    let last = cfold.session(1).splice(IndexRange::full(), Vec::new());
    assert_eq!(None, last);
    assert_eq!("", cfold.to_string());
    assert!(cfold.is_empty());
    assert_eq!(0, cfold.len());
}

#[test]
fn splice_from_the_first_element_goes_behind_the_root() {
    let mut cfold = with_text("abc");
    cfold
        .session(1)
        .splice(IndexRange::from(LocalIndex(1)), chars("xy"));
    assert_eq!("xy", cfold.to_string());
}

#[test]
fn clear_removes_all_elements() {
    let mut cfold = with_text("abc");
    cfold.session(2).clear();
    assert_eq!("", cfold.to_string());
    assert_eq!(
        vec![
            Change::Root,
            Change::Insert('a'),
            Change::Insert('b'),
            Change::Insert('c'),
            Change::Delete,
            Change::Delete,
            Change::Delete,
        ],
        cfold.iter_changes().to_vec()
    );
}

#[test]
fn create_root_starts_a_chain_of_its_own() {
    let mut cfold = with_text("ab");
    let root = cfold.session(1).create_root();
    assert_eq!(LocalIndex(3), root);
    assert_eq!(Some(&Change::Root), cfold.get(root));
    assert_eq!(None, cfold.index_after(root));
    assert_eq!(Some(root), cfold.index_before(root));
    assert_eq!(
        Some(Timestamp::new(AuthorIndex(3), 1)),
        cfold.timestamp(root)
    );
    // The chain of the primary root is as it was.
    assert_eq!("ab", cfold.to_string());
    cfold.session(1).insert_after(root, 'x');
    assert_eq!(Some(LocalIndex(4)), cfold.index_after(root));
    assert_eq!("ab", cfold.to_string());
}

#[test]
fn session_iter_ops_yields_the_ops_of_the_session_only() {
    let mut cfold = with_text("ab");
    let foreign = Op::insert(
        Timestamp::new(AuthorIndex(3), 9),
        Some(Timestamp::new(AuthorIndex(2), 1)),
        'z',
    );
    let mut session = cfold.session(2);
    session.push_back('c');
    session.chronofold.apply(foreign).unwrap();
    session.remove(LocalIndex(1));
    let ops: Vec<Op<u8, &char>> = session.iter_ops();
    assert_eq!(
        vec![
            Op::insert(
                Timestamp::new(AuthorIndex(3), 2),
                Some(Timestamp::new(AuthorIndex(2), 1)),
                &'c'
            ),
            Op::delete(
                Timestamp::new(AuthorIndex(5), 2),
                Timestamp::new(AuthorIndex(1), 1)
            ),
        ],
        ops
    );
}

#[test]
fn local_inserts_go_behind_the_last_tombstone() {
    let mut cfold = with_text("ab");
    let mut session = cfold.session(1);
    session.remove(LocalIndex(1));
    session.insert_after(LocalIndex(1), 'x');
    assert_eq!("xb", cfold.to_string());
    // The insert is woven in behind the tombstone, and refers to the
    // deleted element.
    assert_eq!(Some(LocalIndex(4)), cfold.index_after(LocalIndex(3)));
    let mut ops = cfold.iter_ops::<&char>(IndexRange::from(LocalIndex(4)));
    assert_eq!(
        Some(Op::insert(
            Timestamp::new(AuthorIndex(4), 1),
            Some(Timestamp::new(AuthorIndex(1), 1)),
            &'x'
        )),
        ops.next()
    );
    assert_eq!(None, ops.next());
}

#[test]
fn an_insert_behind_a_deleted_element_converges() {
    let mut left = Chronofold::<u8, char>::default();
    let mut right = left.clone();
    let ops_left: Vec<Op<u8, char>> = {
        let mut session = left.session(1);
        let idx = session.push_back('!');
        session.clear();
        session.insert_after(idx, '?');
        session.iter_ops().into_iter().map(Op::cloned).collect()
    };
    right.apply(ops_left[0].clone()).unwrap();
    let ops_right: Vec<Op<u8, char>> = {
        let mut session = right.session(2);
        session.remove(LocalIndex(1));
        session.iter_ops().into_iter().map(Op::cloned).collect()
    };
    for op in ops_left.into_iter().skip(1) {
        right.apply(op).unwrap();
    }
    for op in ops_right {
        left.apply(op).unwrap();
    }
    assert_eq!("?", left.to_string());
    assert_eq!("?", right.to_string());
    assert_eq!(left.version(), right.version());
}

#[test]
fn a_local_remove_of_a_deleted_element_refers_to_the_element() {
    let mut cfold = with_text("ab");
    let mut session = cfold.session(2);
    session.remove(LocalIndex(1));
    session.remove(LocalIndex(1));
    let ops: Vec<Op<u8, &char>> = session.iter_ops();
    assert_eq!(
        vec![
            Op::delete(
                Timestamp::new(AuthorIndex(3), 2),
                Timestamp::new(AuthorIndex(1), 1)
            ),
            Op::delete(
                Timestamp::new(AuthorIndex(4), 2),
                Timestamp::new(AuthorIndex(1), 1)
            ),
        ],
        ops
    );
    assert_eq!("b", cfold.to_string());
}

#[test]
fn a_local_insert_behind_the_root_goes_behind_its_tombstone() {
    let mut left = with_text("a");
    let mut right = left.clone();
    let ops: Vec<Op<u8, char>> = {
        let mut session = left.session(1);
        session.remove(LocalIndex(0));
        session.insert_after(LocalIndex(0), 'x');
        session.iter_ops().into_iter().map(Op::cloned).collect()
    };
    assert_eq!(Some(LocalIndex(2)), left.find_last_delete(LocalIndex(0)));
    for op in ops {
        right.apply(op).unwrap();
    }
    assert_eq!("xa", left.to_string());
    assert_eq!("xa", right.to_string());
    assert_eq!(left, right);
}
