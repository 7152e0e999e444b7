use lisp_rs::ast::{Expr, TopLevel};
use lisp_rs::integer::Integer;
use lisp_rs::lexer::Lexer;
use lisp_rs::parser::Parser;

fn name(text: &str) -> Expr {
    Expr::Ident(text.into())
}

fn num(value: i64) -> Expr {
    Expr::Int(Integer::from_i64(value))
}

#[test]
fn test1() {
    assert_eq!(
        Parser::new(Lexer::from("1").tokens()).parse(),
        Ok(TopLevel(vec![num(1)]))
    );
}

#[test]
fn test2() {
    assert_eq!(
        Parser::new(Lexer::from("(+ 1 9)").tokens()).parse(),
        Ok(TopLevel(vec![Expr::List(vec![name("+"), num(1), num(9)])]))
    );
}

#[test]
fn test3() {
    assert_eq!(
        Parser::new(
            Lexer::from(
                "(+ (* 2 5)
            9)
         1"
            )
            .tokens()
        )
        .parse(),
        Ok(TopLevel(vec![
            Expr::List(vec![
                name("+"),
                Expr::List(vec![name("*"), num(2), num(5)]),
                num(9)
            ]),
            num(1)
        ]))
    );
}
