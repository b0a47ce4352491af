//! The four tree edits, each addressed by a path of child indices.

use vstd::prelude::*;
use vstd::string::StringExecFns;
use crate::ast::{Ast, Tree};
use crate::text::{decimal, push_decimal};

verus! {

/// The mathematical model of an instruction.
///
/// `Insert` and `Delete` address the list that contains the edit position;
/// `Update` and `Replace` address the node that is changed.
pub enum Edit {
    Insert { path: Seq<nat>, index: nat, node: Tree },
    Delete { path: Seq<nat>, index: nat },
    Update { path: Seq<nat>, new_value: Seq<char> },
    Replace { path: Seq<nat>, node: Tree },
}

impl Edit {
    /// The path that the edit carries.
    pub open spec fn path(self) -> Seq<nat> {
        match self {
            Edit::Insert { path, .. } => path,
            Edit::Delete { path, .. } => path,
            Edit::Update { path, .. } => path,
            Edit::Replace { path, .. } => path,
        }
    }

    /// The edit in words.
    pub open spec fn describe(self) -> Seq<char> {
        match self {
            Edit::Insert { path, index, node } => "Insert at path "@ + path_text(path) + " index "@
                + decimal(index) + " node "@ + node.render(),
            Edit::Delete { path, index } => "Delete at path "@ + path_text(path) + " index "@
                + decimal(index),
            Edit::Update { path, new_value } => "Update at path "@ + path_text(path)
                + " with value "@ + new_value,
            Edit::Replace { path, node } => "Replace at path "@ + path_text(path) + " with "@
                + node.render(),
        }
    }
}

/// The numerals of the indices of `path`, with a comma and a space between
/// neighbours.
pub open spec fn path_items(path: Seq<nat>) -> Seq<char>
    decreases path.len(),
{
    if path.len() == 0 {
        Seq::empty()
    } else if path.len() == 1 {
        decimal(path[0])
    } else {
        path_items(path.drop_last()) + ", "@ + decimal(path.last())
    }
}

/// A path as text: its indices in square brackets.
pub open spec fn path_text(path: Seq<nat>) -> Seq<char> {
    "["@ + path_items(path) + "]"@
}

/// The model of a path: its indices as natural numbers.
pub open spec fn path_view(path: Seq<usize>) -> Seq<nat> {
    path.map_values(|i: usize| i as nat)
}

/// The models of a sequence of instructions, element by element.
pub open spec fn edits(instructions: Seq<Instruction>) -> Seq<Edit> {
    instructions.map_values(|instruction: Instruction| instruction@)
}

/// One atomic tree edit.
#[derive(Debug, PartialEq)]
pub enum Instruction {
    Insert { path: Vec<usize>, index: usize, node: Ast },
    Delete { path: Vec<usize>, index: usize },
    Update { path: Vec<usize>, new_value: String },
    Replace { path: Vec<usize>, node: Ast },
}

impl View for Instruction {
    type V = Edit;

    open spec fn view(&self) -> Edit {
        match self {
            Instruction::Insert { path, index, node } => Edit::Insert {
                path: path_view(path@),
                index: *index as nat,
                node: node@,
            },
            Instruction::Delete { path, index } => Edit::Delete {
                path: path_view(path@),
                index: *index as nat,
            },
            Instruction::Update { path, new_value } => Edit::Update {
                path: path_view(path@),
                new_value: new_value@,
            },
            Instruction::Replace { path, node } => Edit::Replace {
                path: path_view(path@),
                node: node@,
            },
        }
    }
}

impl Clone for Instruction {
    fn clone(&self) -> (res: Instruction)
        ensures
            res@ == self@,
    {
        match self {
            Instruction::Insert { path, index, node } => Instruction::Insert {
                path: path.clone(),
                index: *index,
                node: node.clone(),
            },
            Instruction::Delete { path, index } => Instruction::Delete {
                path: path.clone(),
                index: *index,
            },
            Instruction::Update { path, new_value } => Instruction::Update {
                path: path.clone(),
                new_value: new_value.clone(),
            },
            Instruction::Replace { path, node } => Instruction::Replace {
                path: path.clone(),
                node: node.clone(),
            },
        }
    }
}

impl Instruction {
    /// The path that the instruction carries.
    pub fn path(&self) -> (path: &Vec<usize>)
        ensures
            path_view(path@) == self@.path(),
    {
        match self {
            Instruction::Insert { path, .. } => path,
            Instruction::Delete { path, .. } => path,
            Instruction::Update { path, .. } => path,
            Instruction::Replace { path, .. } => path,
        }
    }
}

/// Appends `path` as text to `out`.
pub fn write_path(out: &mut String, path: &Vec<usize>)
    ensures
        final(out)@ == old(out)@ + path_text(path_view(path@)),
{
    out.append("[");
    let ghost start = out@;
    let ghost indices = path_view(path@);
    let mut i: usize = 0;
    proof {
        assert(out@ =~= start + path_items(indices.take(0)));
    }
    while i < path.len()
        invariant
            i <= path.len(),
            indices == path_view(path@),
            out@ == start + path_items(indices.take(i as int)),
        decreases path.len() - i,
    {
        let ghost done = indices.take(i as int);
        let ghost next = indices.take(i + 1);
        proof {
            assert(next.drop_last() =~= done);
            assert(next.last() == path@[i as int] as nat);
        }
        if i > 0 {
            out.append(", ");
        }
        push_decimal(out, path[i] as u64);
        proof {
            if i == 0 {
                assert(path_items(done) =~= Seq::<char>::empty());
            }
            assert(out@ =~= start + path_items(next));
        }
        i += 1;
    }
    proof {
        assert(indices.take(i as int) =~= indices);
    }
    out.append("]");
    proof {
        assert(out@ =~= old(out)@ + path_text(indices));
    }
}

impl Instruction {
    /// Appends the instruction in words to `out`.
    pub fn write_to(&self, out: &mut String)
        ensures
            final(out)@ == old(out)@ + self@.describe(),
    {
        match self {
            Instruction::Insert { path, index, node } => {
                out.append("Insert at path ");
                write_path(out, path);
                out.append(" index ");
                push_decimal(out, *index as u64);
                out.append(" node ");
                node.write_to(out);
            },
            Instruction::Delete { path, index } => {
                out.append("Delete at path ");
                write_path(out, path);
                out.append(" index ");
                push_decimal(out, *index as u64);
            },
            Instruction::Update { path, new_value } => {
                out.append("Update at path ");
                write_path(out, path);
                out.append(" with value ");
                out.append(new_value.as_str());
            },
            Instruction::Replace { path, node } => {
                out.append("Replace at path ");
                write_path(out, path);
                out.append(" with ");
                node.write_to(out);
            },
        }
        proof {
            assert(out@ =~= old(out)@ + self@.describe());
        }
    }

    /// The instruction in words.
    pub fn to_string(&self) -> (text: String)
        ensures
            text@ == self@.describe(),
    {
        let mut text = String::new();
        self.write_to(&mut text);
        proof {
            assert(text@ =~= self@.describe());
        }
        text
    }
}

/// A copy of a sequence of instructions.
pub fn clone_instructions(instructions: &Vec<Instruction>) -> (res: Vec<Instruction>)
    ensures
        edits(res@) == edits(instructions@),
{
    let mut res: Vec<Instruction> = Vec::new();
    let mut i: usize = 0;
    while i < instructions.len()
        invariant
            i <= instructions.len(),
            res@.len() == i,
            forall|k: int| 0 <= k < i ==> res@[k]@ == instructions@[k]@,
        decreases instructions.len() - i,
    {
        res.push(instructions[i].clone());
        i += 1;
    }
    proof {
        assert(edits(res@) =~= edits(instructions@));
    }
    res
}

} // verus!
