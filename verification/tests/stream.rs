use toktree::stream::Stream;

#[test]
fn next_walks_the_characters() {
    let mut s = Stream::new(String::from("ab"));
    assert_eq!(s.next(), Some('a'));
    assert_eq!(s.next(), Some('b'));
    assert_eq!(s.next(), None);
    assert_eq!(s.next(), None);
}

#[test]
fn peek_does_not_consume() {
    let mut s = Stream::new(String::from("xy"));
    assert_eq!(s.peek(), Some('x'));
    assert_eq!(s.peek(), Some('x'));
    assert_eq!(s.next(), Some('x'));
    assert_eq!(s.peek(), Some('y'));
    assert_eq!(s.next(), Some('y'));
    assert_eq!(s.peek(), None);
}

#[test]
fn empty_stream_is_exhausted() {
    let mut s = Stream::new(String::new());
    assert_eq!(s.peek(), None);
    assert_eq!(s.next(), None);
}

#[test]
fn position_advances_with_next() {
    let mut s = Stream::new(String::from("abc"));
    assert_eq!(s.position(), 0);
    s.next();
    assert_eq!(s.position(), 1);
    s.next();
    s.next();
    assert_eq!(s.position(), 3);
}

#[test]
fn extract_returns_a_subrange() {
    let s = Stream::new(String::from("hello"));
    assert_eq!(s.extract(1, 4), "ell");
    assert_eq!(s.extract(0, 0), "");
}
