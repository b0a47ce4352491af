use trefoil::ast::Ast;
use trefoil::parser::{parse, tokenize};
use trefoil::reading::{is_one_word, is_printable, source_reads_back, white_space_is_as_usual};
use trefoil::repository::render_source;

fn atom(text: &str) -> Ast {
    Ast::Atom(text.to_string())
}

fn list(children: Vec<Ast>) -> Ast {
    Ast::List(children)
}

#[test]
fn white_space_is_what_it_is_taken_to_be() {
    assert!(white_space_is_as_usual());
}

#[test]
fn words_hold_no_white_space_and_no_parentheses() {
    assert!(is_one_word(&"define".to_string()));
    assert!(is_one_word(&"+".to_string()));
    assert!(is_one_word(&"a[0]".to_string()));
    assert!(!is_one_word(&"".to_string()));
    assert!(!is_one_word(&"a b".to_string()));
    assert!(!is_one_word(&"a\n".to_string()));
    assert!(!is_one_word(&"(".to_string()));
    assert!(!is_one_word(&"a)".to_string()));
    assert!(!is_one_word(&"a\u{3000}b".to_string()));
}

#[test]
fn a_tree_is_printable_where_its_atoms_are_words() {
    assert!(is_printable(&list(vec![])));
    assert!(is_printable(&atom("a")));
    assert!(is_printable(&list(vec![atom("a"), list(vec![atom("b"), list(vec![])])])));
    assert!(!is_printable(&atom("")));
    assert!(!is_printable(&list(vec![atom("a"), list(vec![atom("b c")])])));
    assert!(!is_printable(&list(vec![list(vec![]), atom(")")])));
}

#[test]
fn what_is_sure_to_be_read_back_is_read_back() {
    let trees = vec![
        list(vec![]),
        list(vec![atom("a")]),
        list(vec![list(vec![])]),
        list(vec![
            list(vec![atom("define"), atom("x"), atom("10")]),
            atom("y"),
            list(vec![atom("print"), list(vec![atom("+"), atom("x"), list(vec![])])]),
        ]),
    ];
    for tree in trees {
        assert!(source_reads_back(&tree));
        assert_eq!(parse(&tokenize(&render_source(&tree))), Ok(tree));
    }
}

#[test]
fn what_is_not_sure_to_be_read_back() {
    assert!(!source_reads_back(&atom("a")));
    assert!(!source_reads_back(&list(vec![atom("a b")])));
    assert!(!source_reads_back(&list(vec![list(vec![atom("")])])));
    let tree = list(vec![atom("a b")]);
    assert_eq!(
        parse(&tokenize(&render_source(&tree))),
        Ok(list(vec![atom("a"), atom("b")]))
    );
}
