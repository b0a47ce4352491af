//! The tree model: an atom holding text, or an ordered list of child trees.

use vstd::prelude::*;
use vstd::string::StringExecFns;

verus! {

/// The mathematical model of a tree.
pub enum Tree {
    Atom(Seq<char>),
    List(Seq<Tree>),
}

/// The two kinds of node.
#[derive(Debug, Clone, Copy, PartialEq, Eq, Structural)]
pub enum NodeKind {
    Atom,
    List,
}

impl Tree {
    /// The empty list, the snapshot every history starts from.
    pub open spec fn empty() -> Tree {
        Tree::List(Seq::empty())
    }

    pub open spec fn kind(self) -> NodeKind {
        match self {
            Tree::Atom(_) => NodeKind::Atom,
            Tree::List(_) => NodeKind::List,
        }
    }

    /// The canonical text of a tree: an atom is its text, a list is its
    /// children's texts joined by single spaces and wrapped in parentheses.
    pub open spec fn render(self) -> Seq<char>
        decreases self, 1nat,
    {
        match self {
            Tree::Atom(text) => text,
            Tree::List(items) => seq!['('] + Tree::joined(items, seq![' ']) + seq![')'],
        }
    }

    /// The texts of `items`, in order, with `separator` between neighbours.
    pub open spec fn joined(items: Seq<Tree>, separator: Seq<char>) -> Seq<char>
        decreases items, 0nat,
    {
        if items.len() == 0 {
            Seq::empty()
        } else if items.len() == 1 {
            items[0].render()
        } else {
            Tree::joined(items.drop_last(), separator) + separator + items.last().render()
        }
    }
}

/// A tree node: a leaf holding opaque text, or an ordered, possibly empty
/// list of children.
#[derive(Debug, PartialEq)]
pub enum Ast {
    Atom(String),
    List(Vec<Ast>),
}

/// The models of a sequence of nodes, element by element.
pub open spec fn trees(nodes: Seq<Ast>) -> Seq<Tree> {
    nodes.map_values(|node: Ast| node@)
}

impl View for Ast {
    type V = Tree;

    open spec fn view(&self) -> Tree
        decreases self,
    {
        match self {
            Ast::Atom(s) => Tree::Atom(s@),
            Ast::List(v) => Tree::List(
                Seq::new(
                    v@.len(),
                    |i: int|
                        if 0 <= i < v@.len() {
                            v@[i]@
                        } else {
                            Tree::empty()
                        },
                ),
            ),
        }
    }
}

/// The model of a list node is the list of its children's models.
pub proof fn lemma_view_list(v: Vec<Ast>)
    ensures
        Ast::List(v)@ == Tree::List(trees(v@)),
{
    assert(Ast::List(v)@->List_0 =~= trees(v@));
}

impl Clone for Ast {
    fn clone(&self) -> (res: Ast)
        ensures
            res@ == self@,
        decreases self,
    {
        match self {
            Ast::Atom(s) => Ast::Atom(s.clone()),
            Ast::List(v) => {
                let mut out: Vec<Ast> = Vec::new();
                let mut i: usize = 0;
                while i < v.len()
                    invariant
                        i <= v.len(),
                        out@.len() == i,
                        forall|k: int| 0 <= k < i ==> out@[k]@ == v@[k]@,
                        decreases_to!(self => v),
                    decreases v.len() - i,
                {
                    out.push(v[i].clone());
                    i += 1;
                }
                proof {
                    lemma_view_list(*v);
                    lemma_view_list(out);
                    assert(trees(out@) =~= trees(v@));
                }
                Ast::List(out)
            },
        }
    }
}

impl Ast {
    /// The empty list.
    pub fn empty() -> (ast: Ast)
        ensures
            ast@ == Tree::empty(),
    {
        let children: Vec<Ast> = Vec::new();
        proof {
            lemma_view_list(children);
            assert(trees(children@) =~= Seq::<Tree>::empty());
        }
        Ast::List(children)
    }

    /// Whether this node is an atom or a list.
    pub fn kind(&self) -> (kind: NodeKind)
        ensures
            kind == self@.kind(),
    {
        match self {
            Ast::Atom(_) => NodeKind::Atom,
            Ast::List(_) => NodeKind::List,
        }
    }

    /// Appends the canonical text of this tree to `out`.
    pub fn write_to(&self, out: &mut String)
        ensures
            final(out)@ == old(out)@ + self@.render(),
        decreases self, 1nat,
    {
        match self {
            Ast::Atom(text) => {
                out.append(text.as_str());
            },
            Ast::List(children) => {
                proof {
                    reveal_strlit("(");
                    reveal_strlit(")");
                    reveal_strlit(" ");
                    lemma_view_list(*children);
                    assert("("@ =~= seq!['(']);
                    assert(")"@ =~= seq![')']);
                    assert(" "@ =~= seq![' ']);
                }
                out.append("(");
                write_joined(children, " ", out);
                out.append(")");
                proof {
                    assert(out@ =~= old(out)@ + self@.render());
                }
            },
        }
    }

    /// The canonical text of this tree.
    pub fn to_string(&self) -> (text: String)
        ensures
            text@ == self@.render(),
    {
        let mut text = String::new();
        self.write_to(&mut text);
        proof {
            assert(text@ =~= self@.render());
        }
        text
    }
}

/// Appends the canonical texts of `nodes` to `out`, in order, with
/// `separator` between neighbours.
pub fn write_joined(nodes: &Vec<Ast>, separator: &str, out: &mut String)
    ensures
        final(out)@ == old(out)@ + Tree::joined(trees(nodes@), separator@),
    decreases nodes, 0nat,
{
    let ghost start = out@;
    let mut i: usize = 0;
    proof {
        assert(out@ =~= start + Tree::joined(trees(nodes@).take(0), separator@));
    }
    while i < nodes.len()
        invariant
            i <= nodes.len(),
            out@ == start + Tree::joined(trees(nodes@).take(i as int), separator@),
        decreases nodes.len() - i,
    {
        let ghost done = trees(nodes@).take(i as int);
        let ghost next = trees(nodes@).take(i + 1);
        proof {
            assert(next.drop_last() =~= done);
            assert(next.last() == nodes@[i as int]@);
        }
        if i > 0 {
            out.append(separator);
        }
        nodes[i].write_to(out);
        proof {
            if i == 0 {
                assert(Tree::joined(done, separator@) =~= Seq::<char>::empty());
            }
            assert(out@ =~= start + Tree::joined(next, separator@));
        }
        i += 1;
    }
    proof {
        assert(trees(nodes@).take(i as int) =~= trees(nodes@));
    }
}

} // verus!
