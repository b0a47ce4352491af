//! The patch engine: applying one instruction, or a sequence of them, to a
//! tree.

use vstd::prelude::*;
use crate::ast::{lemma_view_list, trees, Ast, NodeKind, Tree};
use crate::instruction::{edits, path_view, Edit, Instruction};

verus! {

/// The mathematical model of a failed application.
pub enum ApplyFailure {
    TypeMismatch { path: Seq<nat>, expected: NodeKind, found: NodeKind },
    IndexOutOfBounds { path: Seq<nat>, index: nat, len: nat },
}

/// Why an instruction could not be applied.
///
/// `path` leads to the node at which the application stopped.
#[derive(Debug, PartialEq, Eq)]
pub enum ApplyError {
    /// The node at `path` is of the other kind than the instruction needs.
    TypeMismatch { path: Vec<usize>, expected: NodeKind, found: NodeKind },
    /// The list at `path` has `len` children, which leaves no place for
    /// `index`.
    IndexOutOfBounds { path: Vec<usize>, index: usize, len: usize },
}

impl View for ApplyError {
    type V = ApplyFailure;

    open spec fn view(&self) -> ApplyFailure {
        match self {
            ApplyError::TypeMismatch { path, expected, found } => ApplyFailure::TypeMismatch {
                path: path_view(path@),
                expected: *expected,
                found: *found,
            },
            ApplyError::IndexOutOfBounds { path, index, len } => ApplyFailure::IndexOutOfBounds {
                path: path_view(path@),
                index: *index as nat,
                len: *len as nat,
            },
        }
    }
}

/// The model of what an application returns.
pub open spec fn outcome(res: Result<Ast, ApplyError>) -> Result<Tree, ApplyFailure> {
    match res {
        Ok(ast) => Ok(ast@),
        Err(e) => Err(e@),
    }
}

/// The node reached from `tree` by the indices of `path` from position
/// `depth` on. Every node on the way must be a list that has the child asked
/// for; the failure names the first node that is not.
pub open spec fn locate(tree: Tree, path: Seq<nat>, depth: nat) -> Result<Tree, ApplyFailure>
    decreases path.len() - depth,
{
    if depth >= path.len() {
        Ok(tree)
    } else {
        match tree {
            Tree::Atom(_) => Err(
                ApplyFailure::TypeMismatch {
                    path: path.take(depth as int),
                    expected: NodeKind::List,
                    found: NodeKind::Atom,
                },
            ),
            Tree::List(items) => {
                let i = path[depth as int];
                if i < items.len() {
                    locate(items[i as int], path, depth + 1)
                } else {
                    Err(
                        ApplyFailure::IndexOutOfBounds {
                            path: path.take(depth as int),
                            index: i,
                            len: items.len(),
                        },
                    )
                }
            },
        }
    }
}

/// `tree` with the node that `locate` reaches replaced by `new`; `tree`
/// itself where `locate` fails.
pub open spec fn graft(tree: Tree, path: Seq<nat>, depth: nat, new: Tree) -> Tree
    decreases path.len() - depth,
{
    if depth >= path.len() {
        new
    } else {
        match tree {
            Tree::Atom(_) => tree,
            Tree::List(items) => {
                let i = path[depth as int];
                if i < items.len() {
                    Tree::List(items.update(i as int, graft(items[i as int], path, depth + 1, new)))
                } else {
                    tree
                }
            },
        }
    }
}

/// What `edit` makes of the node that its path addresses.
pub open spec fn edit_node(target: Tree, edit: Edit) -> Result<Tree, ApplyFailure> {
    match edit {
        Edit::Insert { path, index, node } => match target {
            Tree::List(items) => if index <= items.len() {
                Ok(Tree::List(items.insert(index as int, node)))
            } else {
                Err(ApplyFailure::IndexOutOfBounds { path, index, len: items.len() })
            },
            Tree::Atom(_) => Err(
                ApplyFailure::TypeMismatch {
                    path,
                    expected: NodeKind::List,
                    found: NodeKind::Atom,
                },
            ),
        },
        Edit::Delete { path, index } => match target {
            Tree::List(items) => if index < items.len() {
                Ok(Tree::List(items.remove(index as int)))
            } else {
                Err(ApplyFailure::IndexOutOfBounds { path, index, len: items.len() })
            },
            Tree::Atom(_) => Err(
                ApplyFailure::TypeMismatch {
                    path,
                    expected: NodeKind::List,
                    found: NodeKind::Atom,
                },
            ),
        },
        Edit::Update { path, new_value } => match target {
            Tree::Atom(_) => Ok(Tree::Atom(new_value)),
            Tree::List(_) => Err(
                ApplyFailure::TypeMismatch {
                    path,
                    expected: NodeKind::Atom,
                    found: NodeKind::List,
                },
            ),
        },
        Edit::Replace { node, .. } => Ok(node),
    }
}

/// The result of applying `edit` to `tree`, where the first `depth` indices
/// of the edit's path have been followed already.
pub open spec fn apply_from(tree: Tree, edit: Edit, depth: nat) -> Result<Tree, ApplyFailure> {
    match locate(tree, edit.path(), depth) {
        Err(e) => Err(e),
        Ok(target) => match edit_node(target, edit) {
            Err(e) => Err(e),
            Ok(changed) => Ok(graft(tree, edit.path(), depth, changed)),
        },
    }
}

/// The result of applying `edit` to `tree`.
pub open spec fn apply(tree: Tree, edit: Edit) -> Result<Tree, ApplyFailure> {
    apply_from(tree, edit, 0)
}

/// The result of applying `edits` to `tree` one after the other, each to
/// the outcome of the one before; the first failure ends it.
pub open spec fn apply_all(tree: Tree, edits: Seq<Edit>) -> Result<Tree, ApplyFailure>
    decreases edits.len(),
{
    if edits.len() == 0 {
        Ok(tree)
    } else {
        match apply_all(tree, edits.drop_last()) {
            Ok(before) => apply(before, edits.last()),
            Err(e) => Err(e),
        }
    }
}

/// The first `depth` indices of `path`.
fn path_prefix(path: &Vec<usize>, depth: usize) -> (prefix: Vec<usize>)
    requires
        depth <= path.len(),
    ensures
        prefix@ == path@.take(depth as int),
{
    let mut prefix: Vec<usize> = Vec::new();
    let mut i: usize = 0;
    while i < depth
        invariant
            i <= depth <= path.len(),
            prefix@ == path@.take(i as int),
        decreases depth - i,
    {
        prefix.push(path[i]);
        proof {
            assert(path@.take(i + 1) =~= path@.take(i as int).push(path@[i as int]));
        }
        i += 1;
    }
    prefix
}

/// Inserts `node` as child `index` of the list `ast`, which `path` leads to.
fn apply_insert(ast: &mut Ast, path: Vec<usize>, index: usize, node: Ast) -> (res: Result<
    (),
    ApplyError,
>)
    ensures
        match edit_node(
            old(ast)@,
            Edit::Insert { path: path_view(path@), index: index as nat, node: node@ },
        ) {
            Ok(changed) => res is Ok && final(ast)@ == changed,
            Err(e) => res is Err && res->Err_0@ == e && final(ast)@ == old(ast)@,
        },
{
    let ghost before = *ast;
    let res = match ast {
        Ast::List(children) => {
            let len: usize = children.len();
            if index <= len {
                children.insert(index, node);
                Ok(())
            } else {
                Err(ApplyError::IndexOutOfBounds { path, index, len })
            }
        },
        Ast::Atom(_) => Err(
            ApplyError::TypeMismatch { path, expected: NodeKind::List, found: NodeKind::Atom },
        ),
    };
    let ghost after = *ast;
    proof {
        match (before, after) {
            (Ast::List(v0), Ast::List(v1)) => {
                lemma_view_list(v0);
                lemma_view_list(v1);
                if index <= v0@.len() {
                    assert(trees(v1@) =~= trees(v0@).insert(index as int, node@));
                }
            },
            _ => {},
        }
    }
    res
}

/// Removes child `index` of the list `ast`, which `path` leads to.
fn apply_delete(ast: &mut Ast, path: Vec<usize>, index: usize) -> (res: Result<(), ApplyError>)
    ensures
        match edit_node(old(ast)@, Edit::Delete { path: path_view(path@), index: index as nat }) {
            Ok(changed) => res is Ok && final(ast)@ == changed,
            Err(e) => res is Err && res->Err_0@ == e && final(ast)@ == old(ast)@,
        },
{
    let ghost before = *ast;
    let res = match ast {
        Ast::List(children) => {
            let len: usize = children.len();
            if index < len {
                children.remove(index);
                Ok(())
            } else {
                Err(ApplyError::IndexOutOfBounds { path, index, len })
            }
        },
        Ast::Atom(_) => Err(
            ApplyError::TypeMismatch { path, expected: NodeKind::List, found: NodeKind::Atom },
        ),
    };
    let ghost after = *ast;
    proof {
        match (before, after) {
            (Ast::List(v0), Ast::List(v1)) => {
                lemma_view_list(v0);
                lemma_view_list(v1);
                if index < v0@.len() {
                    assert(trees(v1@) =~= trees(v0@).remove(index as int));
                }
            },
            _ => {},
        }
    }
    res
}

/// Gives the atom `ast`, which `path` leads to, the text `new_value`.
fn apply_update(ast: &mut Ast, path: Vec<usize>, new_value: String) -> (res: Result<
    (),
    ApplyError,
>)
    ensures
        match edit_node(
            old(ast)@,
            Edit::Update { path: path_view(path@), new_value: new_value@ },
        ) {
            Ok(changed) => res is Ok && final(ast)@ == changed,
            Err(e) => res is Err && res->Err_0@ == e && final(ast)@ == old(ast)@,
        },
{
    match ast {
        Ast::Atom(text) => {
            *text = new_value;
            Ok(())
        },
        Ast::List(_) => Err(
            ApplyError::TypeMismatch { path, expected: NodeKind::Atom, found: NodeKind::List },
        ),
    }
}

/// Puts `node` in the place of `ast`.
fn apply_replace(ast: &mut Ast, node: Ast)
    ensures
        final(ast)@ == node@,
{
    *ast = node;
}

/// Follows the instruction's path from position `depth` on, starting at
/// `ast`, and edits the node that it reaches.
fn apply_at(ast: &mut Ast, instruction: Instruction, depth: usize) -> (res: Result<(), ApplyError>)
    requires
        depth <= instruction@.path().len(),
    ensures
        match apply_from(old(ast)@, instruction@, depth as nat) {
            Ok(changed) => res is Ok && final(ast)@ == changed,
            Err(e) => res is Err && res->Err_0@ == e && final(ast)@ == old(ast)@,
        },
    decreases instruction@.path().len() - depth,
{
    if depth == instruction.path().len() {
        match instruction {
            Instruction::Insert { path, index, node } => apply_insert(ast, path, index, node),
            Instruction::Delete { path, index } => apply_delete(ast, path, index),
            Instruction::Update { path, new_value } => apply_update(ast, path, new_value),
            Instruction::Replace { node, .. } => {
                apply_replace(ast, node);
                Ok(())
            },
        }
    } else {
        let ghost before = *ast;
        let ghost edit = instruction@;
        let res = match ast {
            Ast::Atom(_) => {
                let path = path_prefix(instruction.path(), depth);
                proof {
                    assert(path_view(path@) =~= edit.path().take(depth as int));
                }
                Err(
                    ApplyError::TypeMismatch {
                        path,
                        expected: NodeKind::List,
                        found: NodeKind::Atom,
                    },
                )
            },
            Ast::List(children) => {
                let index: usize = instruction.path()[depth];
                let len: usize = children.len();
                if index < len {
                    apply_at(&mut children[index], instruction, depth + 1)
                } else {
                    let path = path_prefix(instruction.path(), depth);
                    proof {
                        assert(path_view(path@) =~= edit.path().take(depth as int));
                    }
                    Err(ApplyError::IndexOutOfBounds { path, index, len })
                }
            },
        };
        let ghost after = *ast;
        proof {
            match (before, after) {
                (Ast::List(v0), Ast::List(v1)) => {
                    lemma_view_list(v0);
                    lemma_view_list(v1);
                    let i = edit.path()[depth as int] as int;
                    if i < v0@.len() {
                        if res is Ok {
                            assert(trees(v1@) =~= trees(v0@).update(i, v1@[i]@));
                        } else {
                            assert(trees(v1@) =~= trees(v0@));
                        }
                    }
                },
                _ => {},
            }
        }
        res
    }
}

/// Applies `instruction` to `ast` in place. Only the nodes along the
/// instruction's path are touched; where the instruction cannot be applied,
/// `ast` is left as it was.
pub fn apply_in_place(ast: &mut Ast, instruction: Instruction) -> (res: Result<(), ApplyError>)
    ensures
        match apply(old(ast)@, instruction@) {
            Ok(changed) => res is Ok && final(ast)@ == changed,
            Err(e) => res is Err && res->Err_0@ == e && final(ast)@ == old(ast)@,
        },
{
    apply_at(ast, instruction, 0)
}

/// Applies `instruction` to `ast` and returns the new tree.
pub fn apply_instruction(ast: Ast, instruction: Instruction) -> (res: Result<Ast, ApplyError>)
    ensures
        outcome(res) == apply(ast@, instruction@),
{
    let mut ast = ast;
    match apply_in_place(&mut ast, instruction) {
        Ok(()) => Ok(ast),
        Err(e) => Err(e),
    }
}

/// Applies `instructions` to `ast` in order and returns the new tree, or
/// the first failure.
pub fn apply_instructions(ast: Ast, instructions: &Vec<Instruction>) -> (res: Result<
    Ast,
    ApplyError,
>)
    ensures
        outcome(res) == apply_all(ast@, edits(instructions@)),
{
    let mut current = ast;
    let mut i: usize = 0;
    while i < instructions.len()
        invariant
            i <= instructions.len(),
            apply_all(ast@, edits(instructions@).take(i as int)) == Ok::<Tree, ApplyFailure>(
                current@,
            ),
        decreases instructions.len() - i,
    {
        let ghost done = edits(instructions@).take(i as int);
        let ghost next = edits(instructions@).take(i + 1);
        proof {
            assert(next.drop_last() =~= done);
            assert(next.last() == instructions@[i as int]@);
        }
        match apply_in_place(&mut current, instructions[i].clone()) {
            Ok(()) => {},
            Err(e) => {
                proof {
                    lemma_apply_all_failure(ast@, edits(instructions@), i + 1);
                }
                return Err(e);
            },
        }
        i += 1;
    }
    proof {
        assert(edits(instructions@).take(i as int) =~= edits(instructions@));
    }
    Ok(current)
}

/// A failure on the way is the failure of the whole sequence.
pub proof fn lemma_apply_all_failure(tree: Tree, edits: Seq<Edit>, n: int)
    requires
        0 <= n <= edits.len(),
        apply_all(tree, edits.take(n)) is Err,
    ensures
        apply_all(tree, edits) == apply_all(tree, edits.take(n)),
    decreases edits.len() - n,
{
    if n < edits.len() {
        assert(edits.take(n + 1).drop_last() =~= edits.take(n));
        lemma_apply_all_failure(tree, edits, n + 1);
    } else {
        assert(edits.take(n) =~= edits);
    }
}

} // verus!
