use spanlex::span::Span;
use spanlex::{LexError, Lexer, Token};

/// Unwraps one scan step and checks its span's text, position and offsets.
fn expect<'a>(
    t: Result<Option<(Token<'a>, Span<'a>)>, LexError>,
    text: &str,
    line: usize,
    col: usize,
    first: usize,
    last: usize,
) -> Token<'a> {
    let (tok, sp) = t.unwrap().unwrap();
    assert_eq!(text, sp.spanned());
    assert_eq!(line, sp.line_num());
    assert_eq!(col, sp.col_num());
    assert_eq!(first, sp.first_byte());
    assert_eq!(last, sp.last_byte());
    tok
}

#[test]
fn lexer_next() {
    let mut lexer = Lexer::new("(1 + 1)\n* 2");
    assert!(matches!(
        expect(lexer.next(), "(", 1, 1, 0, 1),
        Token::OpenParen
    ));
    match expect(lexer.next(), "1", 1, 2, 1, 2) {
        Token::Number(t) => assert_eq!("1", t),
        _ => panic!("expected a number"),
    }
    assert!(matches!(expect(lexer.next(), "+", 1, 4, 3, 4), Token::Add));
    match expect(lexer.next(), "1", 1, 6, 5, 6) {
        Token::Number(t) => assert_eq!("1", t),
        _ => panic!("expected a number"),
    }
    assert!(matches!(
        expect(lexer.next(), ")", 1, 7, 6, 7),
        Token::CloseParen
    ));
    // The span of `*` reports line 2, column 1.
    let mul = lexer.next().unwrap().unwrap();
    assert!(matches!(mul.0, Token::Mul));
    assert_eq!("2:1", mul.1.locator());
    assert_eq!("*", mul.1.spanned());
    assert_eq!(8, mul.1.first_byte());
    assert_eq!(9, mul.1.last_byte());
    match expect(lexer.next(), "2", 2, 3, 10, 11) {
        Token::Number(t) => assert_eq!("2", t),
        _ => panic!("expected a number"),
    }
    assert!(lexer.next().unwrap().is_none());
}

#[test]
fn words_and_punctuation() {
    // Whitespace, including the newline, is silently skipped.
    let mut lexer = Lexer::new("This is\n a test!");
    let mut words = Vec::new();
    loop {
        match lexer.next().unwrap() {
            Some((Token::Word(sp), _)) => words.push(sp.spanned()),
            Some((Token::Punct(sp), _)) => {
                assert_eq!("!", sp.spanned());
                break;
            }
            other => panic!("unexpected token: got none or wrong kind {:?}", other.is_some()),
        }
    }
    assert_eq!(vec!["This", "is", "a", "test"], words);
    assert!(lexer.next().unwrap().is_none());
}

#[test]
fn empty_buffer_yields_none() {
    let mut lexer = Lexer::new("");
    assert!(lexer.next().unwrap().is_none());
}

#[test]
fn exhaustion_is_terminal() {
    let mut lexer = Lexer::new("hi");
    assert!(lexer.next().unwrap().is_some());
    assert!(lexer.next().unwrap().is_none());
    // Once none, every further call keeps answering none.
    assert!(lexer.next().unwrap().is_none());
    assert!(lexer.next().unwrap().is_none());
}

#[test]
fn unsupported_character_fails_fast() {
    let mut lexer = Lexer::new("a #");
    assert!(matches!(lexer.next(), Ok(Some((Token::Word(_), _)))));
    assert_eq!(
        Err(LexError::UnsupportedCharacter {
            ch: '#',
            line: 1,
            col: 3,
        }),
        lexer.next().map(|o| o.map(|_| ()))
    );
}

#[test]
fn tokens_and_whitespace_partition_the_buffer() {
    // Concatenating every token's source text plus every skipped whitespace
    // run, in emission order, reproduces the original buffer exactly.
    let input = "This is\n a test! (1 + 1)\n* 2";
    let mut lexer = Lexer::new(input);
    let mut rebuilt = String::new();
    let mut end = 0;
    while let Some((_, sp)) = lexer.next().unwrap() {
        rebuilt.push_str(&input[end..sp.first_byte()]);
        rebuilt.push_str(sp.spanned());
        end = sp.last_byte();
    }
    rebuilt.push_str(&input[end..]);
    assert_eq!(input, rebuilt);
}

#[test]
fn repeated_symbols_stay_single_tokens() {
    let mut lexer = Lexer::new("((1))");
    for expected in ["(", "(", "1", ")", ")"] {
        let (_, sp) = lexer.next().unwrap().unwrap();
        assert_eq!(expected, sp.spanned());
    }
    assert!(lexer.next().unwrap().is_none());
}

#[test]
fn number_runs_are_greedy() {
    let mut lexer = Lexer::new("  654324987321654 7");
    match lexer.next().unwrap().unwrap() {
        (Token::Number(t), sp) => {
            assert_eq!("654324987321654", t);
            assert_eq!(2, sp.first_byte());
            assert_eq!(17, sp.last_byte());
            assert_eq!(1, sp.line_num());
            assert_eq!(3, sp.col_num());
        }
        _ => panic!("expected a number"),
    }
    match lexer.next().unwrap().unwrap() {
        (Token::Number(t), _) => assert_eq!("7", t),
        _ => panic!("expected a number"),
    }
}

#[test]
fn subtraction_token() {
    let mut lexer = Lexer::new("3 - 1");
    assert!(matches!(lexer.next(), Ok(Some((Token::Number(_), _)))));
    assert!(matches!(lexer.next(), Ok(Some((Token::Sub, _)))));
    assert!(matches!(lexer.next(), Ok(Some((Token::Number(_), _)))));
    assert!(lexer.next().unwrap().is_none());
}
