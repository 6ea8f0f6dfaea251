use expr_parser::lexer::{LexError, Lexer, Token};

fn all_tokens(s: &[u8]) -> Vec<Token> {
    let mut l = Lexer::new(s);
    let mut out = Vec::new();
    loop {
        let t = l.next().unwrap();
        if t == Token::Eof {
            return out;
        }
        out.push(t);
    }
}

#[test]
fn cuts_operators_numbers_and_symbols() {
    assert_eq!(
        all_tokens(b" 12+ab3\t(x)^!-*/\n"),
        vec![
            Token::Int(12),
            Token::Plus,
            Token::Sym("ab3".to_string()),
            Token::LParen,
            Token::Sym("x".to_string()),
            Token::RParen,
            Token::Caret,
            Token::Fac,
            Token::Minus,
            Token::Star,
            Token::Slash,
        ]
    );
}

#[test]
fn digits_then_letters_are_two_tokens() {
    assert_eq!(all_tokens(b"12ab"), vec![Token::Int(12), Token::Sym("ab".to_string())]);
}

#[test]
fn end_of_input_repeats() {
    let mut l = Lexer::new(b"  ");
    assert_eq!(l.next(), Ok(Token::Eof));
    assert_eq!(l.next(), Ok(Token::Eof));
    assert_eq!(l.peek(), Ok(&Token::Eof));
}

#[test]
fn peek_does_not_consume() {
    let mut l = Lexer::new(b"7 +");
    assert_eq!(l.peek(), Ok(&Token::Int(7)));
    assert_eq!(l.peek(), Ok(&Token::Int(7)));
    assert_eq!(l.next(), Ok(Token::Int(7)));
    assert_eq!(l.peek(), Ok(&Token::Plus));
    assert_eq!(l.next(), Ok(Token::Plus));
    assert_eq!(l.next(), Ok(Token::Eof));
}

#[test]
fn unknown_byte_is_an_error() {
    let mut l = Lexer::new(b"1 %");
    assert_eq!(l.next(), Ok(Token::Int(1)));
    assert_eq!(l.peek(), Err(LexError::UnexpectedByte { at: 2 }));
    assert_eq!(l.next(), Err(LexError::UnexpectedByte { at: 2 }));
}

#[test]
fn number_too_large_is_an_error() {
    let mut l = Lexer::new(b" 99999999999");
    assert_eq!(l.next(), Err(LexError::NumberOverflow { at: 1 }));
    let mut l = Lexer::new(b"2147483647");
    assert_eq!(l.next(), Ok(Token::Int(i32::MAX)));
}

#[test]
fn offset_skips_whitespace() {
    let l = Lexer::new(b"   1");
    assert_eq!(l.offset(), 3);
}
