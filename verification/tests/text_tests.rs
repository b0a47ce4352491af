use trefoil::ast::{Ast, NodeKind};
use trefoil::instruction::Instruction;
use trefoil::parser::{parse, tokenize, ParseError};
use trefoil::repository::{list_instructions, render_source};

fn atom(text: &str) -> Ast {
    Ast::Atom(text.to_string())
}

fn list(children: Vec<Ast>) -> Ast {
    Ast::List(children)
}

#[test]
fn an_atom_renders_as_its_text() {
    assert_eq!(atom("define").to_string(), "define");
    assert_eq!(atom("").to_string(), "");
}

#[test]
fn a_list_renders_in_parentheses_with_single_spaces() {
    assert_eq!(list(vec![]).to_string(), "()");
    assert_eq!(list(vec![atom("a")]).to_string(), "(a)");
    assert_eq!(
        list(vec![atom("a"), list(vec![atom("b"), atom("c")]), list(vec![])]).to_string(),
        "(a (b c) ())"
    );
}

#[test]
fn write_to_appends() {
    let mut out = "x=".to_string();
    list(vec![atom("a"), atom("b")]).write_to(&mut out);
    assert_eq!(out, "x=(a b)");
}

#[test]
fn rendering_and_parsing_are_inverse() {
    let tree = list(vec![
        list(vec![atom("define"), atom("x"), atom("10")]),
        list(vec![atom("print"), list(vec![atom("+"), atom("x"), atom("1")]), list(vec![])]),
    ]);
    let text = render_source(&tree);
    assert_eq!(text, "(define x 10)\n(print (+ x 1) ())");
    assert_eq!(parse(&tokenize(&text)), Ok(tree));
}

#[test]
fn the_source_of_an_atom_is_its_text() {
    assert_eq!(render_source(&atom("a")), "a");
    assert_eq!(render_source(&list(vec![])), "");
    assert_eq!(render_source(&list(vec![atom("a"), atom("b")])), "a\nb");
}

#[test]
fn kinds() {
    assert_eq!(atom("a").kind(), NodeKind::Atom);
    assert_eq!(list(vec![]).kind(), NodeKind::List);
    assert_eq!(Ast::empty(), list(vec![]));
}

#[test]
fn instructions_in_words() {
    assert_eq!(
        Instruction::Insert { path: vec![0, 1], index: 2, node: list(vec![atom("x"), atom("y")]) }
            .to_string(),
        "Insert at path [0, 1] index 2 node (x y)"
    );
    assert_eq!(
        Instruction::Delete { path: vec![], index: 0 }.to_string(),
        "Delete at path [] index 0"
    );
    assert_eq!(
        Instruction::Update { path: vec![7], new_value: "z".to_string() }.to_string(),
        "Update at path [7] with value z"
    );
    assert_eq!(
        Instruction::Replace { path: vec![10, 205, 3], node: atom("a") }.to_string(),
        "Replace at path [10, 205, 3] with a"
    );
}

#[test]
fn numbers_are_written_in_decimal() {
    assert_eq!(
        Instruction::Delete { path: vec![1234567890, 9, 10, 99, 100], index: 4294967295 }
            .to_string(),
        "Delete at path [1234567890, 9, 10, 99, 100] index 4294967295"
    );
}

#[test]
fn a_listing_numbers_its_lines_and_rounds_the_brackets() {
    let instructions = vec![
        Instruction::Insert { path: vec![0, 1], index: 2, node: atom("a[0]") },
        Instruction::Update { path: vec![], new_value: "]".to_string() },
    ];
    assert_eq!(
        list_instructions(&instructions),
        vec![
            "1. Insert at path (0, 1) index 2 node a(0)",
            "2. Update at path () with value )",
        ]
    );
    assert_eq!(list_instructions(&vec![]), Vec::<String>::new());
}

#[test]
fn a_listing_of_more_than_nine_lines() {
    let mut instructions = vec![];
    for i in 0..12 {
        instructions.push(Instruction::Delete { path: vec![], index: i });
    }
    let lines = list_instructions(&instructions);
    assert_eq!(lines[8], "9. Delete at path () index 8");
    assert_eq!(lines[9], "10. Delete at path () index 9");
    assert_eq!(lines[11], "12. Delete at path () index 11");
}

#[test]
fn the_messages_of_the_parser() {
    assert_eq!(
        ParseError::UnexpectedClose.message(),
        "Unexpected closing parenthesis ')' at top level."
    );
    assert_eq!(
        ParseError::UnexpectedEnd.message(),
        "Unexpected end of input while expecting an expression."
    );
    assert_eq!(
        ParseError::StrayClose.message(),
        "Unexpected closing parenthesis ')' when expecting an expression start or atom."
    );
    assert_eq!(
        ParseError::MissingClose.message(),
        "Missing closing parenthesis ')' for list."
    );
}

#[test]
fn tokens_of_words_and_parentheses() {
    assert_eq!(tokenize("a"), vec!["a"]);
    assert_eq!(tokenize("  "), Vec::<String>::new());
    assert_eq!(tokenize("(()a)b"), vec!["(", "(", ")", "a", ")", "b"]);
    assert_eq!(tokenize("é(ü ß)"), vec!["é", "(", "ü", "ß", ")"]);
}
