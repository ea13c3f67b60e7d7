use chronofold::fmt::push_decimal;
use chronofold::{AuthorIndex, Chronofold, ChronofoldError, LocalIndex, Op, Timestamp};

#[test]
fn numbers_are_written_in_decimal() {
    for n in [0usize, 7, 10, 42, 99, 100, 1234567890, usize::MAX] {
        let mut text = String::from("n=");
        push_decimal(&mut text, n);
        assert_eq!(format!("n={}", n), text);
    }
}

#[test]
fn timestamps_are_written_in_angle_brackets() {
    assert_eq!(
        "<120, 45>",
        Timestamp::new(AuthorIndex(120), 45u8).to_string()
    );
    assert_eq!(
        "<0, 18446744073709551615>",
        Timestamp::new(AuthorIndex(0), usize::MAX).to_string()
    );
    let mut text = String::from("at ");
    Timestamp::new(AuthorIndex(3), 2u8).write_to(&mut text);
    assert_eq!("at <3, 2>", text);
}

#[test]
fn errors_name_the_timestamp_they_are_about() {
    let id = Timestamp::new(AuthorIndex(12), 3u8);
    let target = Timestamp::new(AuthorIndex(10), 200u8);
    let delete: Op<u8, char> = Op::delete(id, target);
    assert_eq!(
        "unknown reference <10, 200>",
        ChronofoldError::UnknownReference(delete.clone()).to_string()
    );
    assert_eq!(
        "existing timestamp <12, 3>",
        ChronofoldError::ExistingTimestamp(delete.clone()).to_string()
    );
    assert_eq!(
        "future timestamp <12, 3>",
        ChronofoldError::FutureTimestamp(delete).to_string()
    );
    let root: Op<u8, char> = Op::root(id);
    assert_eq!(
        "unknown reference ",
        ChronofoldError::UnknownReference(root).to_string()
    );
}

#[test]
fn a_chronofold_renders_its_elements_in_causal_order() {
    let mut cfold = Chronofold::<u8, char>::default();
    let mut session = cfold.session(1);
    session.extend("hello".chars().collect());
    session.insert_after(LocalIndex(5), '!');
    session.remove(LocalIndex(1));
    session.push_front('H');
    assert_eq!("Hello!", cfold.to_string());
}
