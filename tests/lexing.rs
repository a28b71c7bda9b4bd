use postfix_calc::{Lexer, Token};

fn all_tokens(s: &str) -> Vec<Token> {
    let mut lexer = Lexer::new(s.chars().collect());
    let mut out = Vec::new();
    while let Some(t) = lexer.read_token() {
        out.push(t);
    }
    out
}

#[test]
fn reads_each_kind_of_token() {
    assert_eq!(
        all_tokens("12+ -*/a"),
        vec![
            Token::Number(12),
            Token::Plus,
            Token::Space,
            Token::Minus,
            Token::Asterisk,
            Token::Slash,
            Token::Unknown('a'),
        ]
    );
}

#[test]
fn empty_input_has_no_tokens() {
    let mut lexer = Lexer::new(Vec::new());
    assert_eq!(lexer.read_token(), None);
    assert_eq!(lexer.read_token(), None);
}

#[test]
fn every_space_is_a_token() {
    assert_eq!(
        all_tokens(" 1  2"),
        vec![Token::Space, Token::Number(1), Token::Space, Token::Space, Token::Number(2)]
    );
}

#[test]
fn numbers_take_all_adjacent_digits() {
    assert_eq!(all_tokens("0042"), vec![Token::Number(42)]);
    assert_eq!(all_tokens("3-4"), vec![Token::Number(3), Token::Minus, Token::Number(4)]);
}

#[test]
fn long_numbers_wrap() {
    assert_eq!(all_tokens("2147483647"), vec![Token::Number(2147483647)]);
    assert_eq!(all_tokens("2147483648"), vec![Token::Number(-2147483648)]);
    assert_eq!(all_tokens("4294967296"), vec![Token::Number(0)]);
}

#[test]
fn non_ascii_character_is_unknown() {
    assert_eq!(all_tokens("é"), vec![Token::Unknown('é')]);
}
