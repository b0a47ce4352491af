//! The diff engine: a positional comparison of two trees.

use vstd::prelude::*;
use crate::ast::{lemma_view_list, trees, Ast, Tree};
use crate::apply::{apply_all, ApplyFailure};
use crate::instruction::{edits, path_view, Edit, Instruction};
use crate::theorems::{theorem_diff_same, theorem_round_trip};

verus! {

/// The edits that turn `old` into `new`, where `path` leads to both.
///
/// Equal atoms give nothing, differing atoms one `Update`. Lists with the
/// same number of children are compared child by child, left to right.
/// Anything else is one `Replace` that carries all of `new`.
pub open spec fn diff(old: Tree, new: Tree, path: Seq<nat>) -> Seq<Edit>
    decreases old,
{
    match (old, new) {
        (Tree::Atom(a), Tree::Atom(b)) => if a == b {
            Seq::empty()
        } else {
            seq![Edit::Update { path, new_value: b }]
        },
        (Tree::List(xs), Tree::List(ys)) => if xs.len() == ys.len() {
            diff_children(xs, ys, path, xs.len())
        } else {
            seq![Edit::Replace { path, node: new }]
        },
        _ => seq![Edit::Replace { path, node: new }],
    }
}

/// The edits for the first `n` children of two lists of the same length.
pub open spec fn diff_children(xs: Seq<Tree>, ys: Seq<Tree>, path: Seq<nat>, n: nat) -> Seq<Edit>
    decreases xs, n,
{
    if 0 < n <= xs.len() {
        diff_children(xs, ys, path, (n - 1) as nat) + diff(
            xs[n - 1],
            ys[n - 1],
            path.push((n - 1) as nat),
        )
    } else {
        Seq::empty()
    }
}

/// Compares `old_ast` with `new_ast` and returns the instructions that turn
/// the first into the second. `path` is the place of both in the trees that
/// they belong to: empty for whole trees. It is used as a stack and is
/// handed back as it came.
///
/// Equal trees give no instructions. The instructions for two whole trees,
/// applied in order to the first, give the second.
pub fn diff_ast(old_ast: &Ast, new_ast: &Ast, path: &mut Vec<usize>) -> (instructions: Vec<
    Instruction,
>)
    ensures
        edits(instructions@) == diff(old_ast@, new_ast@, path_view(old(path)@)),
        final(path)@ == old(path)@,
        old_ast@ == new_ast@ ==> instructions@.len() == 0,
        old(path)@.len() == 0 ==> apply_all(old_ast@, edits(instructions@)) == Ok::<
            Tree,
            ApplyFailure,
        >(new_ast@),
{
    let instructions = diff_at(old_ast, new_ast, path);
    proof {
        theorem_diff_same(old_ast@, path_view(old(path)@));
        if old(path)@.len() == 0 {
            assert(path_view(old(path)@) =~= Seq::<nat>::empty());
            theorem_round_trip(old_ast@, new_ast@);
        }
    }
    instructions
}

/// The instructions that turn `old_ast` into `new_ast`, where `path` leads
/// to both.
fn diff_at(old_ast: &Ast, new_ast: &Ast, path: &mut Vec<usize>) -> (instructions: Vec<Instruction>)
    ensures
        edits(instructions@) == diff(old_ast@, new_ast@, path_view(old(path)@)),
        final(path)@ == old(path)@,
    decreases old_ast,
{
    match (old_ast, new_ast) {
        (Ast::Atom(a), Ast::Atom(b)) => {
            if *a == *b {
                let instructions: Vec<Instruction> = Vec::new();
                proof {
                    assert(edits(instructions@) =~= diff(
                        old_ast@,
                        new_ast@,
                        path_view(old(path)@),
                    ));
                }
                instructions
            } else {
                let instructions = vec![
                    Instruction::Update { path: path.clone(), new_value: b.clone() },
                ];
                proof {
                    assert(edits(instructions@) =~= diff(
                        old_ast@,
                        new_ast@,
                        path_view(old(path)@),
                    ));
                }
                instructions
            }
        },
        (Ast::List(old_children), Ast::List(new_children)) => {
            proof {
                lemma_view_list(*old_children);
                lemma_view_list(*new_children);
            }
            if old_children.len() == new_children.len() {
                let mut instructions: Vec<Instruction> = Vec::new();
                let ghost xs = trees(old_children@);
                let ghost ys = trees(new_children@);
                let ghost here = path_view(path@);
                let mut i: usize = 0;
                while i < old_children.len()
                    invariant
                        i <= old_children.len() == new_children.len(),
                        xs == trees(old_children@),
                        ys == trees(new_children@),
                        path@ == old(path)@,
                        here == path_view(path@),
                        edits(instructions@) == diff_children(xs, ys, here, i as nat),
                        decreases_to!(old_ast => old_children),
                    decreases old_children.len() - i,
                {
                    path.push(i);
                    proof {
                        assert(path_view(path@) =~= here.push(i as nat));
                    }
                    let ghost before = instructions@;
                    let mut more = diff_at(&old_children[i], &new_children[i], path);
                    let ghost added = more@;
                    instructions.append(&mut more);
                    path.pop();
                    proof {
                        assert(path@ =~= old(path)@);
                        assert(edits(instructions@) =~= edits(before) + edits(added));
                    }
                    i += 1;
                }
                instructions
            } else {
                let instructions = vec![
                    Instruction::Replace { path: path.clone(), node: new_ast.clone() },
                ];
                proof {
                    assert(edits(instructions@) =~= diff(
                        old_ast@,
                        new_ast@,
                        path_view(old(path)@),
                    ));
                }
                instructions
            }
        },
        _ => {
            let instructions = vec![
                Instruction::Replace { path: path.clone(), node: new_ast.clone() },
            ];
            proof {
                assert(edits(instructions@) =~= diff(
                    old_ast@,
                    new_ast@,
                    path_view(old(path)@),
                ));
            }
            instructions
        },
    }
}

} // verus!
