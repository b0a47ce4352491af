use trefoil::apply::apply_instructions;
use trefoil::ast::Ast;
use trefoil::diff::diff_ast;
use trefoil::instruction::Instruction;

fn atom(text: &str) -> Ast {
    Ast::Atom(text.to_string())
}

fn list(children: Vec<Ast>) -> Ast {
    Ast::List(children)
}

fn diff(old: &Ast, new: &Ast) -> Vec<Instruction> {
    let mut path = vec![];
    let instructions = diff_ast(old, new, &mut path);
    assert!(path.is_empty());
    instructions
}

fn samples() -> Vec<Ast> {
    vec![
        atom("a"),
        atom("b"),
        list(vec![]),
        list(vec![atom("a")]),
        list(vec![atom("b")]),
        list(vec![atom("a"), atom("b")]),
        list(vec![list(vec![]), atom("b")]),
        list(vec![list(vec![atom("x"), atom("y")]), atom("b")]),
        list(vec![list(vec![atom("x"), atom("z")]), list(vec![])]),
        list(vec![
            list(vec![atom("define"), atom("x"), atom("10")]),
            list(vec![atom("print"), list(vec![atom("+"), atom("x"), atom("1")])]),
        ]),
        list(vec![
            list(vec![atom("define"), atom("y"), atom("10")]),
            list(vec![atom("print"), list(vec![atom("+"), atom("y"), atom("2")])]),
        ]),
    ]
}

#[test]
fn a_changed_atom_is_updated() {
    let old = list(vec![atom("x"), atom("y")]);
    let new = list(vec![atom("x"), atom("z")]);
    let instructions = diff(&old, &new);
    assert_eq!(
        instructions,
        vec![Instruction::Update { path: vec![1], new_value: "z".to_string() }]
    );
    assert_eq!(apply_instructions(old, &instructions), Ok(new));
}

#[test]
fn a_change_of_length_replaces_the_list() {
    let old = list(vec![atom("a")]);
    let new = list(vec![atom("a"), atom("b")]);
    let instructions = diff(&old, &new);
    assert_eq!(
        instructions,
        vec![Instruction::Replace { path: vec![], node: list(vec![atom("a"), atom("b")]) }]
    );
}

#[test]
fn a_change_of_length_below_the_root_replaces_only_that_list() {
    let old = list(vec![
        atom("k"),
        list(vec![atom("a"), list(vec![atom("p"), atom("q")])]),
        atom("m"),
    ]);
    let new = list(vec![
        atom("k"),
        list(vec![atom("b"), list(vec![atom("r")])]),
        atom("n"),
    ]);
    assert_eq!(
        diff(&old, &new),
        vec![
            Instruction::Update { path: vec![1, 0], new_value: "b".to_string() },
            Instruction::Replace { path: vec![1, 1], node: list(vec![atom("r")]) },
            Instruction::Update { path: vec![2], new_value: "n".to_string() },
        ]
    );
}

#[test]
fn an_atom_and_a_list_replace_each_other() {
    assert_eq!(
        diff(&atom("a"), &list(vec![])),
        vec![Instruction::Replace { path: vec![], node: list(vec![]) }]
    );
    assert_eq!(
        diff(&list(vec![atom("b")]), &atom("a")),
        vec![Instruction::Replace { path: vec![], node: atom("a") }]
    );
}

#[test]
fn the_path_given_is_the_place_of_the_edits() {
    let mut path = vec![4, 2];
    let instructions = diff_ast(&list(vec![atom("a")]), &list(vec![atom("b")]), &mut path);
    assert_eq!(path, vec![4, 2]);
    assert_eq!(
        instructions,
        vec![Instruction::Update { path: vec![4, 2, 0], new_value: "b".to_string() }]
    );
}

#[test]
fn a_tree_does_not_differ_from_itself() {
    for tree in samples() {
        assert_eq!(diff(&tree, &tree.clone()), vec![]);
    }
}

#[test]
fn applying_a_diff_gives_the_new_tree() {
    for old in samples() {
        for new in samples() {
            let instructions = diff(&old, &new);
            assert_eq!(apply_instructions(old.clone(), &instructions), Ok(new));
        }
    }
}

#[test]
fn a_diff_is_the_same_each_time() {
    for old in samples() {
        for new in samples() {
            assert_eq!(diff(&old, &new), diff(&old, &new));
        }
    }
}

#[test]
fn clones_are_equal() {
    for tree in samples() {
        assert_eq!(tree.clone(), tree);
    }
    let instruction = Instruction::Insert { path: vec![1, 2], index: 3, node: atom("a") };
    assert_eq!(instruction.clone(), instruction);
}
