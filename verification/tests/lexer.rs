use lisp_rs::lexer::{Error, Lexer};
use lisp_rs::token::Token;

fn lex(source: &str) -> Result<Vec<Token>, Error> {
    Lexer::from(source).tokens().into_iter().collect()
}

fn ident(text: &str) -> Token {
    Token::Identifier(text.to_string())
}

fn digits(text: &str) -> Token {
    Token::Integer(text.to_string())
}

fn string(text: &str) -> Token {
    Token::String(text.to_string())
}

#[test]
fn test_ok() {
    assert_eq!(lex("()"), Ok(vec![Token::LParen, Token::RParen]));
}

#[test]
fn test_err() {
    assert_eq!(lex("\0"), Err(Error::UnexpectedSymbol('\0')));
}

#[test]
fn test_identifier() {
    assert_eq!(lex("a124<./S?>F"), Ok(vec![ident("a124<./S?>F")]));
}

#[test]
fn test_integer_ok_single_digit() {
    assert_eq!(lex("1"), Ok(vec![digits("1")]));
}

#[test]
fn test_integer_ok_multi_gidit() {
    assert_eq!(lex("12345"), Ok(vec![digits("12345")]));
}

#[test]
fn test_string_ok_single() {
    assert_eq!(lex(r#"" ""#), Ok(vec![string(" ")]));
}

#[test]
fn test_string_ok_multi() {
    assert_eq!(lex(r#""12345""#), Ok(vec![string("12345")]));
}

#[test]
fn test_string_err() {
    assert_eq!(lex(r#""123"#), Err(Error::UnclosedString));
}

#[test]
fn test_mixed_1() {
    assert_eq!(lex("124<./S?>F"), Ok(vec![digits("124"), ident("<./S?>F")]));
}

#[test]
fn test_mixed_2() {
    assert_eq!(
        lex("(+ -5-124<./S?>F 35)"),
        Ok(vec![
            Token::LParen,
            ident("+"),
            ident("-5-124<./S?>F"),
            digits("35"),
            Token::RParen
        ])
    );
}

#[test]
fn quote_is_a_token_of_its_own() {
    assert_eq!(
        lex("(def 'a 10)"),
        Ok(vec![
            Token::LParen,
            ident("def"),
            Token::Quote,
            ident("a"),
            digits("10"),
            Token::RParen
        ])
    );
}

#[test]
fn quote_inside_an_identifier_belongs_to_it() {
    assert_eq!(lex("a'b"), Ok(vec![ident("a'b")]));
}

#[test]
fn empty_input_has_no_tokens() {
    assert_eq!(lex(""), Ok(vec![]));
    assert_eq!(lex(" \t\n\x0C\r"), Ok(vec![]));
}

#[test]
fn every_ascii_whitespace_separates() {
    assert_eq!(lex("a\tb\nc\x0Cd\re f"), Ok(vec![
        ident("a"),
        ident("b"),
        ident("c"),
        ident("d"),
        ident("e"),
        ident("f")
    ]));
}

#[test]
fn vertical_tab_is_no_whitespace() {
    assert_eq!(lex("a\x0Bb"), Err(Error::UnexpectedSymbol('\x0B')));
}

#[test]
fn non_ascii_is_unexpected() {
    assert_eq!(lex("é"), Err(Error::UnexpectedSymbol('é')));
}

#[test]
fn string_keeps_everything_up_to_the_quote() {
    assert_eq!(lex("\"a (b) 'c\\\" d"), Ok(vec![string("a (b) 'c\\"), ident("d")]));
    assert_eq!(lex("\"é\0\n\""), Ok(vec![string("é\0\n")]));
    assert_eq!(lex("\"\""), Ok(vec![string("")]));
}

#[test]
fn lone_double_quote_is_unclosed() {
    assert_eq!(lex("\""), Err(Error::UnclosedString));
}

#[test]
fn tokens_stop_at_the_first_error() {
    let items = Lexer::from("1 \0 2").tokens();
    assert_eq!(items, vec![Ok(digits("1")), Err(Error::UnexpectedSymbol('\0'))]);
    let items = Lexer::from("( \"ab").tokens();
    assert_eq!(items, vec![Ok(Token::LParen), Err(Error::UnclosedString)]);
}

#[test]
fn next_token_uses_up_an_unexpected_symbol() {
    let mut lexer = Lexer::from("a \0b");
    assert_eq!(lexer.next_token(), Some(Ok(ident("a"))));
    assert_eq!(lexer.next_token(), Some(Err(Error::UnexpectedSymbol('\0'))));
    assert_eq!(lexer.peek(), Some('b'));
    assert_eq!(lexer.next_token(), Some(Ok(ident("b"))));
    assert_eq!(lexer.next_token(), None);
}

#[test]
fn every_item_uses_up_input() {
    let source = "\0\0 \u{7f}é (a \"b\" 'c 12) \"open";
    let mut lexer = Lexer::from(source);
    let mut items = 0;
    while lexer.next_token().is_some() {
        items += 1;
        assert!(items <= source.chars().count());
    }
    assert_eq!(items, 12);
    assert_eq!(lexer.next_token(), None);
}

#[test]
fn next_token_ends_with_none() {
    let mut lexer = Lexer::new(vec!['(', ' ']);
    assert_eq!(lexer.next_token(), Some(Ok(Token::LParen)));
    assert_eq!(lexer.next_token(), None);
    assert_eq!(lexer.next_token(), None);
}

#[test]
fn peek_consume_accept() {
    let mut lexer = Lexer::from("ab");
    assert_eq!(lexer.peek(), Some('a'));
    lexer.consume();
    assert_eq!(lexer.peek(), Some('b'));
    assert_eq!(lexer.accept(Token::Quote), Ok(Token::Quote));
    assert_eq!(lexer.peek(), None);
    lexer.consume();
    assert_eq!(lexer.peek(), None);
    assert_eq!(lexer.accept(Token::LParen), Ok(Token::LParen));
}

#[test]
fn collect_while_and_skip_while() {
    let mut lexer = Lexer::from("aaabcc");
    assert_eq!(lexer.collect_while(|c| *c == 'a'), "aaa");
    assert_eq!(lexer.collect_while(|c| *c == 'a'), "");
    assert_eq!(lexer.peek(), Some('b'));
    lexer.skip_while(|c| *c != 'c');
    assert_eq!(lexer.peek(), Some('c'));
    assert_eq!(lexer.collect_while(|_| true), "cc");
    lexer.skip_while(|_| true);
    assert_eq!(lexer.peek(), None);
}

#[test]
fn character_classes() {
    for c in [' ', '\t', '\n', '\x0C', '\r'] {
        assert!(Lexer::is_whitespace(&c));
    }
    for c in ['\x0B', 'a', '\0', '\u{a0}'] {
        assert!(!Lexer::is_whitespace(&c));
    }
    for c in ['0', '5', '9'] {
        assert!(Lexer::starts_integer(&c));
        assert!(!Lexer::starts_identifier(&c));
    }
    for c in ['/', ':', 'a'] {
        assert!(!Lexer::starts_integer(&c));
    }
    for c in ['!', '~', 'a', 'Z', '-', '+', '<'] {
        assert!(Lexer::starts_identifier(&c));
    }
    for c in ['(', ')', '"', '\'', ' ', '\x7f', 'é', '\0'] {
        assert!(!Lexer::starts_identifier(&c));
    }
    assert!(Lexer::starts_string(&'"'));
    assert!(!Lexer::starts_string(&'\''));
}

#[test]
fn parse_methods_work_from_the_cursor() {
    let mut lexer = Lexer::from("12ab(\"x y\"z");
    assert_eq!(lexer.parse_integer(), Ok(digits("12")));
    assert_eq!(lexer.parse_identifier(), Ok(ident("ab")));
    assert_eq!(lexer.parse_identifier(), Ok(ident("")));
    assert_eq!(lexer.parse_integer(), Ok(digits("")));
    lexer.consume();
    assert_eq!(lexer.parse_string(), Ok(string("x y")));
    assert_eq!(lexer.parse_string(), Err(Error::UnclosedString));
    assert_eq!(lexer.peek(), None);
}

#[test]
fn skip_whitespace_stops_at_the_first_other_character() {
    let mut lexer = Lexer::from(" \n\t x ");
    lexer.skip_whitespace();
    assert_eq!(lexer.peek(), Some('x'));
    lexer.skip_whitespace();
    assert_eq!(lexer.peek(), Some('x'));
}
