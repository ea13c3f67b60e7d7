use chronofold::{Chronofold, IndexRange, LocalIndex, Op, Ops, Session};

fn chars(text: &str) -> Vec<char> {
    text.chars().collect()
}

fn all_ops<'a>(cfold: &'a Chronofold<u8, char>) -> Vec<Op<u8, &'a char>> {
    let mut ops: Ops<'a, u8, char, &'a char> = cfold.iter_ops(IndexRange::full());
    let mut collected = Vec::new();
    while let Some(op) = ops.next() {
        collected.push(op);
    }
    collected
}

#[test]
fn concurrent_insertions() {
    // Both insert after the same character:
    assert_concurrent_eq(
        "012!",
        "0",
        |s| {
            s.extend(chars("!"));
        },
        |s| {
            s.extend(chars("12"));
        },
    );
}

#[test]
fn concurrent_deletions() {
    // Both delete the same single character:
    assert_concurrent_eq(
        "fobar",
        "foobar",
        |s| {
            s.remove(LocalIndex(2));
        },
        |s| {
            s.remove(LocalIndex(2));
        },
    );
}

#[test]
fn concurrent_replacements() {
    // Both replace the same substring:
    assert_concurrent_eq(
        "foobaz123",
        "foobar",
        |s| {
            s.splice(IndexRange::from(LocalIndex(4)), chars("123"));
        },
        |s| {
            s.splice(IndexRange::from(LocalIndex(4)), chars("baz"));
        },
    );
}

#[test]
fn concurrent_insertion_deletion() {
    // Alice inserts after a character that is concurrently deleted by Bob.

    // Equal log indices for the conflicting edits:
    assert_concurrent_eq(
        "0!",
        "01",
        |s| {
            s.insert_after(LocalIndex(2), '!');
        },
        |s| {
            s.remove(LocalIndex(2));
        },
    );

    // Insert's log index is greater:
    assert_concurrent_eq(
        "0!23",
        "01",
        |s| {
            s.extend(chars("23"));
            s.insert_after(LocalIndex(2), '!');
        },
        |s| {
            s.remove(LocalIndex(2));
        },
    );

    // Delete's log index is greater:
    assert_concurrent_eq(
        "023!",
        "01",
        |s| {
            s.insert_after(LocalIndex(2), '!');
        },
        |s| {
            s.extend(chars("23"));
            s.remove(LocalIndex(2));
        },
    );
}

#[test]
fn insert_referencing_deleted_element() {
    let mut cfold = Chronofold::<u8, char>::default();
    let mut session = cfold.session(1);
    let idx = session.push_back('!');
    session.clear();
    session.insert_after(idx, '?');
    assert_eq!("?", cfold.to_string());
}

fn assert_concurrent_eq<F, G>(expected: &str, initial: &str, mutate_left: F, mutate_right: G)
where
    F: FnOnce(&mut Session<u8, char>) -> (),
    G: FnOnce(&mut Session<u8, char>) -> (),
{
    let mut cfold_left = Chronofold::<u8, char>::default();
    cfold_left.session(1).extend(chars(initial));
    let mut cfold_right = cfold_left.clone();

    let ops_left: Vec<Op<u8, char>> = {
        let mut session = cfold_left.session(1);
        mutate_left(&mut session);
        session.iter_ops().into_iter().map(Op::cloned).collect()
    };
    let ops_right: Vec<Op<u8, char>> = {
        let mut session = cfold_right.session(2);
        mutate_right(&mut session);
        session.iter_ops().into_iter().map(Op::cloned).collect()
    };

    for op in ops_left {
        cfold_right.apply(op).unwrap();
    }
    for op in ops_right {
        cfold_left.apply(op).unwrap();
    }

    assert_eq!(
        expected,
        cfold_left.to_string(),
        "Left ops:\n{:#?}",
        all_ops(&cfold_left),
    );
    assert_eq!(
        expected,
        cfold_right.to_string(),
        "Right ops:\n{:#?}",
        all_ops(&cfold_right)
    );
}
