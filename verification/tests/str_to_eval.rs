use lisp_rs::eval::env::Env;
use lisp_rs::eval::error::Error;
use lisp_rs::ast::Expr;
use lisp_rs::eval::evaluator::{eval_expr, eval_list, evaluate_toplevel, evaluate_toplevel_with_env};
use lisp_rs::eval::value::{Builtin, Value};
use lisp_rs::integer::Integer;
use lisp_rs::lexer::Lexer;
use lisp_rs::parser::{parse_source, Parser};

fn run(source: &str) -> Result<Value, Error> {
    evaluate_toplevel(parse_source(source).unwrap())
}

fn num(value: i64) -> Value {
    Value::Int(Integer::from_i64(value))
}

fn text(value: &str) -> Value {
    Value::Str(value.to_string())
}

#[test]
fn omg_it_works_for_ints() {
    let token_iter = Lexer::from("(+ 5 (+ 1 2 3 4 5))");
    let ast = Parser::new(token_iter.tokens()).parse().unwrap();
    let value = evaluate_toplevel(ast);
    assert!(matches!(value, Ok(Value::Int(v)) if v == Integer::from_i64(20)));
}

#[test]
fn omg_it_works_for_strings() {
    let token_iter = Lexer::from(r#"(+ "5" (+ "1" "2" "3" "4" "5"))"#);
    let ast = Parser::new(token_iter.tokens()).parse().unwrap();
    let value = evaluate_toplevel(ast);
    assert!(matches!(value, Ok(Value::Str(v)) if v == String::from("512345")));
}

#[test]
fn omg_errors_work_too() {
    let token_iter = Lexer::from(r#"(+ "5" (+ "1" "2" "3" "4" 5))"#);
    let ast = Parser::new(token_iter.tokens()).parse().unwrap();
    let value = evaluate_toplevel(ast);
    assert!(matches!(value, Err(Error::TypeError)));
}

#[test]
fn test_def() {
    let token_iter = Lexer::from(
        "(def 'a 0)
         (def 'a 10)
         (def 'b 5)
         (+ a b 5)",
    );
    let ast = Parser::new(token_iter.tokens()).parse().unwrap();
    let value = evaluate_toplevel(ast);
    assert!(matches!(value, Ok(Value::Int(v)) if v == Integer::from_i64(20)));
}

#[test]
fn test_def_string_mul_and_cmp() {
    let token_iter = Lexer::from(
        r#"(def 'str "ha")
           (= (* str 2) "haha")"#,
    );
    let ast = Parser::new(token_iter.tokens()).parse().unwrap();
    let value = evaluate_toplevel(ast);
    assert!(matches!(value, Ok(Value::Bool(true))));
}

#[test]
fn string_times_integer_repeats() {
    assert_eq!(run(r#"(* "ha" 2)"#), Ok(text("haha")));
    assert_eq!(run(r#"(* "ha" 0)"#), Ok(text("")));
    assert_eq!(run(r#"(* "" 1000000)"#), Ok(text("")));
    assert_eq!(run(r#"(* "é" 3)"#), Ok(text("ééé")));
}

#[test]
fn definitions_persist_and_overwrite() {
    assert_eq!(run("(def 'a 10) (def 'b 5) (+ a b 5)"), Ok(num(20)));
    assert_eq!(run("(def 'a 0) (def 'a 10) a"), Ok(num(10)));
    assert_eq!(run("(def 'a 1)"), Ok(Value::Absent));
}

#[test]
fn definitions_persist_across_programs_of_a_session() {
    let mut env = Env::default();
    let first = evaluate_toplevel_with_env(parse_source("(def 'a 10)").unwrap(), &mut env);
    assert_eq!(first, Ok(Value::Absent));
    let second = evaluate_toplevel_with_env(parse_source("(* a a)").unwrap(), &mut env);
    assert_eq!(second, Ok(num(100)));
    let third = evaluate_toplevel_with_env(parse_source("(def '+ 1) +").unwrap(), &mut env);
    assert_eq!(third, Ok(num(1)));
    assert_eq!(env.depth(), 1);
}

#[test]
fn def_needs_a_quoted_name() {
    assert_eq!(run("(def a 10)"), Err(Error::UndefinedBinding));
    assert_eq!(run("(def \"a\" 10)"), Err(Error::TypeError));
    assert_eq!(run("(def 1 10)"), Err(Error::TypeError));
    assert_eq!(run("'a"), Ok(Value::Symbol("a".to_string())));
}

#[test]
fn symbols_are_no_operands() {
    assert_eq!(run("(+ 'a 1)"), Err(Error::TypeError));
    assert_eq!(run("(+ 1 'a)"), Err(Error::TypeError));
    assert_eq!(run("(* 'a 1)"), Err(Error::TypeError));
}

#[test]
fn empty_program_has_no_value() {
    assert_eq!(run(""), Ok(Value::Absent));
}

#[test]
fn empty_list_is_nil() {
    assert_eq!(run("()"), Ok(Value::Nil));
    assert_eq!(run("(())"), Ok(Value::Nil));
}

#[test]
fn single_element_list_passes_its_value_through() {
    assert_eq!(run("(5)"), Ok(num(5)));
    assert_eq!(run("((\"a\"))"), Ok(text("a")));
}

#[test]
fn calling_a_non_function_fails() {
    assert_eq!(run("(1 2)"), Err(Error::CallingANonFunctionValue));
    assert_eq!(run("(\"a\" 1 2)"), Err(Error::CallingANonFunctionValue));
    assert_eq!(run("(() 1)"), Err(Error::CallingANonFunctionValue));
}

#[test]
fn arguments_are_evaluated_before_the_head_is_judged() {
    assert_eq!(run("(1 x)"), Err(Error::UndefinedBinding));
    let mut env = Env::default();
    let program = parse_source("(1 (def 'a 2))").unwrap();
    assert_eq!(
        evaluate_toplevel_with_env(program, &mut env),
        Err(Error::CallingANonFunctionValue)
    );
    assert_eq!(env.get_binding("a".to_string()), Some(&num(2)));
}

#[test]
fn undefined_names_fail() {
    assert_eq!(run("x"), Err(Error::UndefinedBinding));
    assert_eq!(run("(x 1)"), Err(Error::UndefinedBinding));
    assert_eq!(run("(+ 1 x)"), Err(Error::UndefinedBinding));
}

#[test]
fn evaluation_stops_at_the_first_failing_element() {
    let mut env = Env::default();
    let program = parse_source("(+ x (def 'a 1))").unwrap();
    assert_eq!(evaluate_toplevel_with_env(program, &mut env), Err(Error::UndefinedBinding));
    assert_eq!(env.get_binding("a".to_string()), None);
    let program = parse_source("(+ (def 'a 1) x)").unwrap();
    assert_eq!(evaluate_toplevel_with_env(program, &mut env), Err(Error::UndefinedBinding));
    assert_eq!(env.get_binding("a".to_string()), Some(&num(1)));
    assert_eq!(run("(+ (+ 1 \"a\") x)"), Err(Error::TypeError));
}

#[test]
fn the_last_expression_gives_the_result() {
    assert_eq!(run("1 2 3"), Ok(num(3)));
    assert_eq!(run("(def 'a 1) \"x\""), Ok(text("x")));
    assert_eq!(run("3 x"), Err(Error::UndefinedBinding));
}

#[test]
fn the_first_failing_expression_ends_the_program() {
    assert_eq!(run("x 3"), Err(Error::UndefinedBinding));
    assert_eq!(run("nope 5"), Err(Error::UndefinedBinding));
    assert_eq!(run("(+ 1 \"a\") x"), Err(Error::TypeError));
    assert_eq!(run("x (+ 1 \"a\")"), Err(Error::UndefinedBinding));
    assert_eq!(run("1 (2 3) x"), Err(Error::CallingANonFunctionValue));
}

#[test]
fn nothing_is_evaluated_after_a_failure() {
    let mut env = Env::default();
    let program = parse_source("(def 'a 1) x (def 'a 2) (def 'b 3)").unwrap();
    assert_eq!(evaluate_toplevel_with_env(program, &mut env), Err(Error::UndefinedBinding));
    assert_eq!(env.get_binding("a".to_string()), Some(&num(1)));
    assert_eq!(env.get_binding("b".to_string()), None);
}

#[test]
fn a_quoted_name_is_not_looked_up() {
    let mut env = Env::default();
    let quoted = Expr::Quoted(Box::new(Expr::Ident("a".to_string())));
    assert_eq!(eval_expr(&quoted, &mut env), Ok(Value::Symbol("a".to_string())));
    env.add_binding("a".to_string(), num(1));
    assert_eq!(eval_expr(&quoted, &mut env), Ok(Value::Symbol("a".to_string())));
    let plus = Expr::Quoted(Box::new(Expr::Ident("+".to_string())));
    assert_eq!(eval_expr(&plus, &mut env), Ok(Value::Symbol("+".to_string())));
    assert_eq!(env.get_binding("a".to_string()), Some(&num(1)));
    assert_eq!(eval_list(&vec![], &mut env), Ok(Value::Nil));
    assert_eq!(eval_list(&vec![Expr::Ident("a".to_string())], &mut env), Ok(num(1)));
}

#[test]
fn wrong_number_of_arguments() {
    for source in ["(+)", "(+ 1)", "(*)", "(* 2)", "(=)", "(= 1)", "(<)", "(< 1)", "(< 1 2 3)",
        "(>)", "(> 1)", "(> 1 2 3)", "(def)", "(def 'a)", "(def 'a 1 2)", "(+ \"a\")"]
    {
        assert_eq!(run(source), Err(Error::WrongNumberOfArguments), "{source}");
    }
}

#[test]
fn arithmetic_is_exact() {
    assert_eq!(
        run("(* 4294967296 4294967296 4294967296 4294967296)"),
        Ok(Value::Int(Integer { negative: false, limbs: vec![0, 0, 0, 0, 1] }))
    );
    assert_eq!(
        run("(+ 18446744073709551615 1)"),
        Ok(Value::Int(Integer { negative: false, limbs: vec![0, 0, 1] }))
    );
    assert_eq!(run("(* 12 0 7)"), Ok(num(0)));
    assert_eq!(run("(+ 0 0)"), Ok(num(0)));
    assert_eq!(run("(* 2 3 7)"), Ok(num(42)));
}

#[test]
fn comparisons() {
    assert_eq!(run("(< 1 2)"), Ok(Value::Bool(true)));
    assert_eq!(run("(< 2 1)"), Ok(Value::Bool(false)));
    assert_eq!(run("(< 2 2)"), Ok(Value::Bool(false)));
    assert_eq!(run("(> 2 1)"), Ok(Value::Bool(true)));
    assert_eq!(run("(> 1 2)"), Ok(Value::Bool(false)));
    assert_eq!(run("(> 2 2)"), Ok(Value::Bool(false)));
    assert_eq!(run("(< 9 10)"), Ok(Value::Bool(true)));
    assert_eq!(run("(< \"9\" \"10\")"), Ok(Value::Bool(false)));
    assert_eq!(run("(< \"a\" \"b\")"), Ok(Value::Bool(true)));
    assert_eq!(run("(< \"a\" \"ab\")"), Ok(Value::Bool(true)));
    assert_eq!(run("(< \"ab\" \"a\")"), Ok(Value::Bool(false)));
    assert_eq!(run("(< \"\" \"\")"), Ok(Value::Bool(false)));
    assert_eq!(run("(> \"b\" \"a\")"), Ok(Value::Bool(true)));
    assert_eq!(run("(> \"a\" \"a\")"), Ok(Value::Bool(false)));
    assert_eq!(run("(< \"Z\" \"a\")"), Ok(Value::Bool(true)));
    assert_eq!(run("(< \"z\" \"é\")"), Ok(Value::Bool(true)));
    assert_eq!(run("(< 1 \"a\")"), Err(Error::TypeError));
    assert_eq!(run("(> \"a\" 1)"), Err(Error::TypeError));
    assert_eq!(run("(< 'a 'b)"), Err(Error::TypeError));
    assert_eq!(run("(> + +)"), Err(Error::TypeError));
}

#[test]
fn equality() {
    assert_eq!(run("(= 1 1)"), Ok(Value::Bool(true)));
    assert_eq!(run("(= 1 1 1 1)"), Ok(Value::Bool(true)));
    assert_eq!(run("(= 1 1 2 1)"), Ok(Value::Bool(false)));
    assert_eq!(run("(= 01 1)"), Ok(Value::Bool(true)));
    assert_eq!(run("(= \"a\" \"a\")"), Ok(Value::Bool(true)));
    assert_eq!(run("(= \"a\" \"b\")"), Ok(Value::Bool(false)));
    assert_eq!(run("(= 'a 'a)"), Ok(Value::Bool(true)));
    assert_eq!(run("(= 'a 'b)"), Ok(Value::Bool(false)));
    assert_eq!(run("(= 'a \"a\")"), Ok(Value::Bool(false)));
    assert_eq!(run("(= 1 \"1\")"), Ok(Value::Bool(false)));
    assert_eq!(run("(= () ())"), Ok(Value::Bool(true)));
    assert_eq!(run("(= (= 1 1) (= 2 2))"), Ok(Value::Bool(true)));
    assert_eq!(run("(= (= 1 1) (= 1 2))"), Ok(Value::Bool(false)));
    assert_eq!(run("(= + +)"), Ok(Value::Bool(false)));
    assert_eq!(run("(= (def 'a 1) (def 'b 2))"), Ok(Value::Bool(true)));
}

#[test]
fn mixed_types_are_type_errors() {
    for source in ["(+ 1 \"a\")", "(+ \"a\" 1)", "(+ 1 2 \"a\")", "(+ \"a\" \"b\" 1)",
        "(* 1 \"a\")", "(* 2 \"a\" 3)", "(* \"a\" 1 2)", "(* \"a\" \"b\")", "(* \"a\" \"b\" 1)"]
    {
        assert_eq!(run(source), Err(Error::TypeError), "{source}");
    }
}

#[test]
fn other_types_are_type_errors() {
    for source in ["(+ () 1)", "(+ + 1)", "(* () 1)", "(* (= 1 1) 2)", "(+ (= 1 1) (= 1 1))",
        "(+ 1 ())", "(* 1 +)", "(* \"a\" ())"]
    {
        assert_eq!(run(source), Err(Error::TypeError), "{source}");
    }
}

#[test]
fn builtins_are_values() {
    assert_eq!(format!("{:?}", run("+")), "Ok(Fun(Add))");
    assert_eq!(format!("{:?}", run("(def)")), "Err(WrongNumberOfArguments)");
    assert!(matches!(run("(*)"), Err(Error::WrongNumberOfArguments)));
    assert!(matches!(run("(def 'plus +) (plus 1 2)"), Ok(Value::Int(v)) if v == Integer::from_i64(3)));
    assert!(matches!(run("def"), Ok(Value::Fun(Builtin::Def))));
    assert!(matches!(run("(<)"), Err(Error::WrongNumberOfArguments)));
}
