use spanlex::span::{bytes_per_char, Span};

#[test]
fn test_bytes_per_char() {
    assert_eq!(1, bytes_per_char('c'));
    assert_eq!(2, bytes_per_char('Č'));
    assert_eq!(4, bytes_per_char('🚀'));
}

#[test]
fn first_char() {
    let mut span = Span::new("aaaa🚀🚀🚀aaaa");
    let consumed = span.consume("a").unwrap();
    println!(
        "{} {}:{}",
        consumed.spanned(),
        consumed.line_num(),
        consumed.col_num()
    );
    let consumed = span.consume("🚀").unwrap();
    println!(
        "{} {}:{}",
        consumed.spanned(),
        consumed.line_num(),
        consumed.col_num()
    );
    let consumed = span.consume("a").unwrap();
    println!(
        "{} {}:{}",
        consumed.spanned(),
        consumed.line_num(),
        consumed.col_num()
    );
}

#[test]
fn spanned_new() {
    let expected = "as;ldfkj";
    let actual = Span::new(expected).spanned();
    assert_eq!(expected, actual);
}

#[test]
fn spanned_consume() {
    let input = "     654324987321654";
    let mut span = Span::new(input);
    let consumed = span.consume(" ").unwrap();
    assert_eq!("     ", consumed.spanned());
    assert_eq!("654324987321654", span.spanned());
    let consumed = span.consume("0123456789").unwrap();
    assert_eq!("654324987321654", consumed.spanned());
    assert_eq!("", span.spanned());
}

#[test]
fn spanned_empty() {
    let span = Span::new("");
    assert_eq!("", span.spanned());
}

#[test]
fn consume_newlines() {
    let mut span = Span::new("Hello\nWorld!");
    assert_eq!(1, span.line_num());
    assert_eq!(1, span.col_num());
    let expected = vec![(1, 1, "Hello"), (1, 6, "\n"), (2, 1, "World"), (2, 6, "!")];
    let actual = vec!['A'..='z', '\n'..='\n', 'A'..='z', '!'..='!']
        .into_iter()
        .map(|r| {
            println!("map {:?}", r);
            let consumed = span.consume(r).unwrap();
            println!(
                "{:?}",
                (consumed.line_num(), consumed.col_num(), consumed.spanned())
            );
            (consumed.line_num(), consumed.col_num(), consumed.spanned())
        })
        .collect::<Vec<_>>();
    assert_eq!(expected, actual);
}

#[test]
fn consume_is_greedy() {
    // A class matching a run of length three followed by a non-matching
    // character consumes exactly the run.
    let mut span = Span::new("aaab");
    let consumed = span.consume('a').unwrap();
    assert_eq!("aaa", consumed.spanned());
    assert_eq!(0, consumed.first_byte());
    assert_eq!(3, consumed.last_byte());
    assert_eq!("b", span.spanned());
    assert_eq!(3, span.first_byte());
}

#[test]
fn consume_empty_match_leaves_span() {
    let mut span = Span::new("abc");
    assert!(span.consume('z').is_none());
    assert_eq!("abc", span.spanned());
    assert_eq!(0, span.first_byte());
}

#[test]
fn byte_width_per_length_class() {
    // One character of each UTF-8 length class advances the cursor by
    // exactly its encoded byte length.
    let cases: Vec<(&str, char, usize)> =
        vec![("a-", 'a', 1), ("é-", 'é', 2), ("€-", '€', 3), ("🚀-", '🚀', 4)];
    for (input, c, width) in cases {
        assert_eq!(width, bytes_per_char(c));
        let mut span = Span::new(input);
        let consumed = span.consume(c).unwrap();
        assert_eq!(0, consumed.first_byte());
        assert_eq!(width, consumed.last_byte());
        assert_eq!(width, span.first_byte());
        assert_eq!("-", span.spanned());
    }
}

#[test]
fn emoji_then_ascii_word() {
    // A 4-byte emoji advances the offsets so the following ASCII letters are
    // carved out as a separate, correctly positioned span.
    let mut span = Span::new("🚀abc");
    let emoji = span.consume('🚀').unwrap();
    assert_eq!("🚀", emoji.spanned());
    assert_eq!(0, emoji.first_byte());
    assert_eq!(4, emoji.last_byte());
    let word = span.consume(('_', ('A'..='Z', 'a'..='z'))).unwrap();
    assert_eq!("abc", word.spanned());
    assert_eq!(4, word.first_byte());
    assert_eq!(7, word.last_byte());
    assert_eq!(1, word.line_num());
    assert_eq!(2, word.col_num());
}

#[test]
fn union_covers_both_spans() {
    let input = "one two three";
    let mut span = Span::new(input);
    let one = span.consume(('A'..='Z', 'a'..='z')).unwrap();
    span.consume(' ').unwrap();
    let two = span.consume(('A'..='Z', 'a'..='z')).unwrap();
    let u = one.union(two);
    assert_eq!(0, u.first_byte());
    assert_eq!(7, u.last_byte());
    assert_eq!("one two", u.spanned());
    assert_eq!(1, u.line_num());
    assert_eq!(1, u.col_num());
    // The same result whichever operand comes first.
    let v = two.union(one);
    assert_eq!("one two", v.spanned());
    assert_eq!(1, v.line_num());
    assert_eq!(1, v.col_num());
}

#[test]
fn sub_str_slices_the_buffer() {
    let input = "ab cd";
    let mut span = Span::new(input);
    let ab = span.consume("ab").unwrap();
    assert_eq!(Some("ab"), ab.sub_str(input));
    assert_eq!(Some(" cd"), span.sub_str(input));
    span.consume((' ', "cd")).unwrap();
    // The exhausted remainder starts at the buffer's end.
    assert_eq!(None, span.sub_str(input));
}

#[test]
fn locator_renders_line_and_column() {
    let mut span = Span::new("aaaaaaaaaaaa!\nb");
    assert_eq!("1:1", span.locator());
    span.consume('a').unwrap();
    let bang = span.consume('!').unwrap();
    assert_eq!("1:13", bang.locator());
    span.consume('\n').unwrap();
    assert_eq!("2:1", span.locator());
}

#[test]
fn class_combinators_contain() {
    // Literal, set, exclusive range, inclusive range, and union classes all
    // bound a consume call.
    let mut s = Span::new("x1_9Z");
    assert_eq!("x", s.consume('x').unwrap().spanned());
    assert_eq!("1", s.consume("0123456789").unwrap().spanned());
    assert_eq!("_", s.consume('_'..'`').unwrap().spanned());
    assert_eq!("9", s.consume('0'..='9').unwrap().spanned());
    assert_eq!("Z", s.consume(('a'..='z', 'A'..='Z')).unwrap().spanned());
    assert!(s.first_char().is_none());
}
