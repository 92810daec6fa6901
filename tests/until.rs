use irc_parse::message::util::UntilExt;

#[test]
fn test_until() {
    let vec = vec![1, 2, 3];
    let mut iter = vec.into_iter();
    let mut iter_ref = iter.by_ref().until(2);
    assert_eq!(iter_ref.next(), Some(1));
    assert_eq!(iter_ref.next(), None);
    assert_eq!(iter.next(), Some(3));
    assert_eq!(iter.next(), None);
}

#[test]
fn test_until_until() {
    let vec = vec![1, 2, 3];
    let mut iter = vec.into_iter();
    let mut iter_ref = iter.by_ref().until(2).until(1);
    assert_eq!(iter_ref.next(), None);
    assert_eq!(iter.next(), Some(2));
    assert_eq!(iter.next(), Some(3));
    assert_eq!(iter.next(), None);
}

#[test]
fn test_until_until2() {
    let vec = vec![1, 2, 3];
    let mut iter = vec.into_iter();
    let mut iter_ref = iter.by_ref().until(1).until(2);
    assert_eq!(iter_ref.next(), None);
    assert_eq!(iter.next(), Some(2));
    assert_eq!(iter.next(), Some(3));
    assert_eq!(iter.next(), None);
}

#[test]
fn until_resumes_after_the_stop_item() {
    let vec = vec![1, 2, 3, 2, 4];
    let mut iter = vec.into_iter().until(2);
    assert_eq!(iter.next(), Some(1));
    assert_eq!(iter.next(), None);
    assert_eq!(iter.next(), Some(3));
    assert_eq!(iter.next(), None);
    assert_eq!(iter.next(), Some(4));
    assert_eq!(iter.next(), None);
}
