use bf_interp::lexing::{error_invalid_token_found, LexError, Lexer, Token};

#[test]
fn tokenize_maps_each_command_character() {
    let tokens = Lexer::tokenize("><+-.,[]").unwrap();
    assert_eq!(
        tokens,
        vec![
            Token::Advance,
            Token::Recede,
            Token::Increment,
            Token::Decrement,
            Token::Show,
            Token::Read,
            Token::StartLoop,
            Token::StopLoop,
        ]
    );
}

#[test]
fn tokenize_empty_text_gives_no_tokens() {
    assert_eq!(Lexer::tokenize(""), Ok(vec![]));
}

#[test]
fn tokenize_text_of_whitespace_gives_no_tokens() {
    assert_eq!(Lexer::tokenize(" \t\r\n\u{b}\u{c}\u{85}\u{2003}"), Ok(vec![]));
}

#[test]
fn tokenize_skips_whitespace() {
    let tokens = Lexer::tokenize(" +\t-\n\r\u{a0}\u{3000}. ").unwrap();
    assert_eq!(tokens, vec![Token::Increment, Token::Decrement, Token::Show]);
}

#[test]
fn tokenize_keeps_the_order_of_the_text() {
    let tokens = Lexer::tokenize("+ > - < +").unwrap();
    assert_eq!(
        tokens,
        vec![
            Token::Increment,
            Token::Advance,
            Token::Decrement,
            Token::Recede,
            Token::Increment,
        ]
    );
}

#[test]
fn tokenize_gives_one_token_for_each_character_that_is_not_whitespace() {
    let text = "++ [ > + < - ]\n\t.,";
    let expected = text.chars().filter(|c| !c.is_whitespace()).count();
    assert_eq!(expected, 10);
    assert_eq!(Lexer::tokenize(text).unwrap().len(), expected);
}

#[test]
fn tokenize_reports_first_invalid_character() {
    assert_eq!(Lexer::tokenize("+ a - b"), Err(LexError { character: 'a' }));
    assert_eq!(Lexer::tokenize("b+a"), Err(LexError { character: 'b' }));
    assert_eq!(Lexer::tokenize("+-\u{e9}"), Err(LexError { character: '\u{e9}' }));
}

#[test]
fn tokenize_reports_a_zero_width_space() {
    assert_eq!(Lexer::tokenize("+\u{200b}+"), Err(LexError { character: '\u{200b}' }));
}

#[test]
fn token_from_each_command_character() {
    assert_eq!(Token::from('>'), Ok(Token::Advance));
    assert_eq!(Token::from('<'), Ok(Token::Recede));
    assert_eq!(Token::from('+'), Ok(Token::Increment));
    assert_eq!(Token::from('-'), Ok(Token::Decrement));
    assert_eq!(Token::from('.'), Ok(Token::Show));
    assert_eq!(Token::from(','), Ok(Token::Read));
    assert_eq!(Token::from('['), Ok(Token::StartLoop));
    assert_eq!(Token::from(']'), Ok(Token::StopLoop));
}

#[test]
fn token_from_any_other_character_is_an_error() {
    assert_eq!(Token::from('x'), Err(LexError { character: 'x' }));
    assert_eq!(Token::from(' '), Err(LexError { character: ' ' }));
}

#[test]
fn token_from_string_takes_one_command_character() {
    assert_eq!(Token::from_string(String::from(">")), Some(Token::Advance));
    assert_eq!(Token::from_string(String::from("<")), Some(Token::Recede));
    assert_eq!(Token::from_string(String::from("+")), Some(Token::Increment));
    assert_eq!(Token::from_string(String::from("-")), Some(Token::Decrement));
    assert_eq!(Token::from_string(String::from(".")), Some(Token::Show));
    assert_eq!(Token::from_string(String::from(",")), Some(Token::Read));
    assert_eq!(Token::from_string(String::from("[")), Some(Token::StartLoop));
    assert_eq!(Token::from_string(String::from("]")), Some(Token::StopLoop));
}

#[test]
fn token_from_string_gives_none_for_any_other_text() {
    assert_eq!(Token::from_string(String::new()), None);
    assert_eq!(Token::from_string(String::from("x")), None);
    assert_eq!(Token::from_string(String::from(" ")), None);
    assert_eq!(Token::from_string(String::from("++")), None);
    assert_eq!(Token::from_string(String::from("+ ")), None);
    assert_eq!(Token::from_string(String::from("\u{e9}")), None);
}

#[test]
fn token_parse_is_tokenize() {
    assert_eq!(
        Token::parse(String::from("+ [ - ]\n")),
        Ok(vec![Token::Increment, Token::StartLoop, Token::Decrement, Token::StopLoop])
    );
    assert_eq!(Token::parse(String::from("+?")), Err(LexError { character: '?' }));
}

#[test]
fn ignorable_characters_are_the_whitespace_of_char() {
    let mut code: u32 = 0;
    while code <= 0x10ffff {
        if let Some(c) = char::from_u32(code) {
            assert_eq!(Lexer::is_ignorable_token(c), c.is_whitespace(), "U+{:04X}", code);
        }
        code += 1;
    }
}

#[test]
fn no_command_character_is_ignorable() {
    for c in "><+-.,[]".chars() {
        assert!(!Lexer::is_ignorable_token(c));
    }
}

#[test]
fn invalid_token_message() {
    assert_eq!(error_invalid_token_found('x'), "Invalid token found: x");
    assert_eq!(LexError { character: '!' }.message(), "Invalid token found: !");
    assert_eq!(error_invalid_token_found('\u{e9}'), "Invalid token found: \u{e9}");
}
