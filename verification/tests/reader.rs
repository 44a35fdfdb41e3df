use ini_lexer::reader::StringReader;

#[test]
fn reader_peek_take_drop() {
    let mut r = StringReader::new("ab");
    assert_eq!(Some('a'), r.peek());
    assert_eq!(Some('a'), r.peek());
    assert_eq!(Some('a'), r.take());
    r.drop();
    assert_eq!(None, r.peek());
    assert_eq!(None, r.take());
    r.drop();
    assert_eq!(None, r.take());
}

#[test]
fn reader_take_while_stops_before_failing_character() {
    let mut r = StringReader::new("abc=rest");
    let taken = r.take_while(|c| c != '=');
    assert_eq!("abc", taken);
    assert_eq!(Some('='), r.peek());
    let rest = r.take_while(|_| true);
    assert_eq!("=rest", rest);
    assert_eq!("", r.take_while(|_| true));
}

#[test]
fn reader_drop_while_counts_skipped_characters() {
    let mut r = StringReader::new("   x ");
    assert_eq!(3, r.drop_while(|c| c == ' '));
    assert_eq!(Some('x'), r.take());
    assert_eq!(1, r.drop_while(|c| c == ' '));
    assert_eq!(0, r.drop_while(|c| c == ' '));
    assert_eq!(None, r.peek());
}
