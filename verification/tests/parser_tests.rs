use trefoil::ast::Ast;
use trefoil::ast::Ast::{Atom, List};
use trefoil::parser::{parse, tokenize};

#[test]
fn test_tokenize_simple() {
    let code = "(define x 10)";
    let tokens = tokenize(code);
    assert_eq!(tokens, vec!["(", "define", "x", "10", ")"]);
}

#[test]
fn test_tokenize_multiple() {
    let code = "(define x 10)(print x)";
    let tokens = tokenize(code);
    assert_eq!(
        tokens,
        vec!["(", "define", "x", "10", ")", "(", "print", "x", ")"]
    );
}

#[test]
fn test_parse_single_expression() {
    let tokens = tokenize("(define x 10)");
    let ast = parse(&tokens).unwrap();
    assert_eq!(
        ast,
        List(vec![List(vec![
            Atom("define".to_string()),
            Atom("x".to_string()),
            Atom("10".to_string())
        ])])
    );
}

#[test]
fn test_parse_multiple_expressions() {
    let tokens = tokenize("(define x 10) (print x)");
    let ast = parse(&tokens).unwrap();
    assert_eq!(
        ast,
        List(vec![
            List(vec![
                Atom("define".to_string()),
                Atom("x".to_string()),
                Atom("10".to_string())
            ]),
            List(vec![Atom("print".to_string()), Atom("x".to_string())])
        ])
    );
}

#[test]
fn test_parse_nested_list() {
    let tokens = tokenize("(list 1 (list 2 3))");
    let ast = parse(&tokens).unwrap();
    assert_eq!(
        ast,
        List(vec![List(vec![
            Atom("list".to_string()),
            Atom("1".to_string()),
            List(vec![
                Atom("list".to_string()),
                Atom("2".to_string()),
                Atom("3".to_string())
            ])
        ])])
    );
}

#[test]
fn test_parse_empty_input() {
    let tokens = tokenize("");
    let ast = parse(&tokens).unwrap();
    assert_eq!(ast, List(vec![]));
}

#[test]
fn test_parse_empty_list() {
    let tokens = tokenize("()");
    let ast = parse(&tokens).unwrap();
    assert_eq!(ast, List(vec![List(vec![])]));
}

#[test]
fn test_parse_multiple_empty_lists() {
    let tokens = tokenize("() ()");
    let ast = parse(&tokens).unwrap();
    assert_eq!(ast, List(vec![List(vec![]), List(vec![])]));
}

#[test]
fn test_parse_error_unmatched_closing_paren() {
    let tokens = tokenize("(define x 10))");
    let result = parse(&tokens);
    assert!(result.is_err());
    assert_eq!(
        result.err().unwrap(),
        "Unexpected closing parenthesis ')' at top level."
    );

    let tokens_leading = tokenize(") (define x 10)");
    let result_leading = parse(&tokens_leading);
    assert!(result_leading.is_err());
    assert_eq!(
        result_leading.err().unwrap(),
        "Unexpected closing parenthesis ')' at top level."
    );
}

#[test]
fn test_parse_error_unmatched_opening_paren() {
    let tokens = tokenize("(define x 10");
    let result = parse(&tokens);
    assert!(result.is_err());
    assert_eq!(
        result.err().unwrap(),
        "Missing closing parenthesis ')' for list."
    );

    let tokens_nested = tokenize("(list 1 (list 2 3");
    let result_nested = parse(&tokens_nested);
    assert!(result_nested.is_err());
    assert_eq!(
        result_nested.err().unwrap(),
        "Missing closing parenthesis ')' for list."
    );
}

#[test]
fn test_parse_error_unexpected_end() {
    let tokens = tokenize("(define x");
    let result = parse(&tokens);
    assert!(result.is_err());
    assert_eq!(
        result.err().unwrap(),
        "Missing closing parenthesis ')' for list."
    );
}

#[test]
fn tokenize_drops_white_space_of_every_kind() {
    let tokens = tokenize(" \t(a\n b\u{a0}c\r\n)  ");
    assert_eq!(tokens, vec!["(", "a", "b", "c", ")"]);
    let _unused: Option<Ast> = None;
}
