//! A repository: a store of commits and the head, the commit that the
//! working copy stands at.

use vstd::prelude::*;
use vstd::string::StringExecFns;
use crate::ast::{lemma_view_list, write_joined, Ast, Tree};
use crate::diff::{diff, diff_ast};
use crate::instruction::{edits, Edit, Instruction};
use crate::text::{decimal, push_char, push_decimal, texts};
use crate::vc::{
    ancestry, borrowed_views, chain, find, reconstruct, reconstruct_ast, Commit, CommitStore,
    CommitView, VcError, VcFailure,
};

verus! {

/// The mathematical model of a repository.
pub struct RepositoryView {
    pub log: Seq<CommitView>,
    pub head: nat,
}

/// The commit that every history begins with.
pub open spec fn root_commit() -> CommitView {
    CommitView { id: 0, parent_id: None, instructions: Seq::empty(), timestamp: 0 }
}

/// The id that the next commit of `log` gets: one more than the newest.
pub open spec fn next_id(log: Seq<CommitView>) -> nat {
    if log.len() == 0 {
        0
    } else {
        log.last().id + 1
    }
}

/// What committing `tree` makes of a repository: nothing where the
/// snapshot at the head is `tree` already, else the repository with one
/// commit more, which holds the diff between the two, has the old head as
/// its parent, and is the new head.
pub open spec fn commit_outcome(repo: RepositoryView, tree: Tree, timestamp: nat) -> Result<
    Option<RepositoryView>,
    VcFailure,
> {
    match reconstruct(repo.log, repo.head) {
        Err(e) => Err(e),
        Ok(current) => {
            let changes = diff(current, tree, Seq::empty());
            if changes.len() == 0 {
                Ok(None)
            } else {
                let id = next_id(repo.log);
                Ok(
                    Some(
                        RepositoryView {
                            log: repo.log.push(
                                CommitView {
                                    id,
                                    parent_id: Some(repo.head),
                                    instructions: changes,
                                    timestamp,
                                },
                            ),
                            head: id,
                        },
                    ),
                )
            }
        },
    }
}

/// What the log shows of a commit.
#[derive(Debug, Clone, Copy, PartialEq, Eq)]
pub struct CommitSummary {
    pub id: u64,
    pub parent_id: Option<u64>,
    pub timestamp: u64,
}

impl CommitSummary {
    /// Whether the summary is that of `commit`.
    pub open spec fn is_of(self, commit: CommitView) -> bool {
        &&& self.id == commit.id
        &&& match self.parent_id {
            Some(p) => commit.parent_id == Some(p as nat),
            None => commit.parent_id is None,
        }
        &&& self.timestamp == commit.timestamp
    }
}

/// The source text of a snapshot: one line for each expression of the
/// top-level list.
pub open spec fn source_text(tree: Tree) -> Seq<char> {
    match tree {
        Tree::List(items) => Tree::joined(items, seq!['\n']),
        Tree::Atom(_) => tree.render(),
    }
}

/// A character, with a round bracket in the place of a square one.
pub open spec fn round(c: char) -> char {
    if c == '[' {
        '('
    } else if c == ']' {
        ')'
    } else {
        c
    }
}

/// Line `i` of the listing of `instructions`: the number of the
/// instruction, counted from 1, and its description with round brackets in
/// the place of square ones.
pub open spec fn listing_line(instructions: Seq<Edit>, i: int) -> Seq<char> {
    decimal((i + 1) as nat) + ". "@ + instructions[i].describe().map_values(|c: char| round(c))
}

/// The listing of `instructions`, a line for each.
pub open spec fn listing(instructions: Seq<Edit>) -> Seq<Seq<char>> {
    Seq::new(instructions.len(), |i: int| listing_line(instructions, i))
}

/// A store of commits together with the head.
pub struct Repository {
    store: CommitStore,
    head: u64,
}

impl View for Repository {
    type V = RepositoryView;

    closed spec fn view(&self) -> RepositoryView {
        RepositoryView { log: self.store@, head: self.head as nat }
    }
}

/// The source text of a snapshot.
pub fn render_source(ast: &Ast) -> (text: String)
    ensures
        text@ == source_text(ast@),
{
    match ast {
        Ast::List(nodes) => {
            let mut text = String::new();
            proof {
                reveal_strlit("\n");
                lemma_view_list(*nodes);
                assert("\n"@ =~= seq!['\n']);
            }
            write_joined(nodes, "\n", &mut text);
            proof {
                assert(text@ =~= source_text(ast@));
            }
            text
        },
        Ast::Atom(_) => ast.to_string(),
    }
}

/// The lines of the listing of `instructions`.
pub fn list_instructions(instructions: &Vec<Instruction>) -> (res: Vec<String>)
    ensures
        texts(res@) == listing(edits(instructions@)),
{
    let mut res: Vec<String> = Vec::new();
    let mut i: usize = 0;
    while i < instructions.len()
        invariant
            i <= instructions.len(),
            res@.len() == i,
            forall|k: int| 0 <= k < i ==> res@[k]@ == listing_line(edits(instructions@), k),
        decreases instructions.len() - i,
    {
        let described = instructions[i].to_string();
        let mut line = String::new();
        push_decimal(&mut line, i as u64 + 1);
        line.append(". ");
        let ghost start = line@;
        for c in it: described.as_str().chars()
            invariant
                it.seq() == described@,
                line@ == start + described@.take(it.index()).map_values(|c: char| round(c)),
        {
            let rounded = if c == '[' {
                '('
            } else if c == ']' {
                ')'
            } else {
                c
            };
            push_char(&mut line, rounded);
            proof {
                assert(described@.take(it.index() + 1) =~= described@.take(it.index()).push(c));
                assert(line@ =~= start + described@.take(it.index() + 1).map_values(
                    |c: char| round(c),
                ));
            }
        }
        proof {
            assert(described@.take(described@.len() as int) =~= described@);
            assert(line@ =~= listing_line(edits(instructions@), i as int));
        }
        res.push(line);
        i += 1;
    }
    proof {
        assert(texts(res@) =~= listing(edits(instructions@)));
    }
    res
}

impl Repository {
    /// A new repository: the root commit, and the head at it.
    pub fn init() -> (repo: Repository)
        ensures
            repo@ == (RepositoryView { log: seq![root_commit()], head: 0 }),
    {
        let mut store = CommitStore::new();
        let root = Commit { id: 0, parent_id: None, instructions: Vec::new(), timestamp: 0 };
        proof {
            assert(edits(root.instructions@) =~= Seq::<Edit>::empty());
            assert(Seq::<CommitView>::empty().push(root@) =~= seq![root_commit()]);
        }
        let appended = store.append(root);
        assert(appended is Ok);
        Repository { store, head: 0 }
    }

    /// The repository of the commits in `store`, with the head at the commit
    /// `head`, which has to be among them.
    pub fn open(store: CommitStore, head: u64) -> (res: Result<Repository, VcError>)
        ensures
            match find(store@, head as nat) {
                Some(_) => res matches Ok(repo) && repo@ == (RepositoryView {
                    log: store@,
                    head: head as nat,
                }),
                None => res matches Err(error) && error@ == (VcFailure::UnknownCommit {
                    id: head as nat,
                }),
            },
    {
        if store.get(head).is_none() {
            return Err(VcError::UnknownCommit { id: head });
        }
        Ok(Repository { store, head })
    }

    /// The id of the commit that the working copy stands at.
    pub fn head(&self) -> (head: u64)
        ensures
            head == self@.head,
    {
        self.head
    }

    /// The commits.
    pub fn store(&self) -> (store: &CommitStore)
        ensures
            store@ == self@.log,
    {
        &self.store
    }

    /// Records `working_tree` as the snapshot after the one at the head.
    /// Returns the id of the new commit, or `None` where the two snapshots
    /// are the same and nothing was recorded.
    pub fn commit(&mut self, working_tree: &Ast, timestamp: u64) -> (res: Result<
        Option<u64>,
        VcError,
    >)
        ensures
            match commit_outcome(old(self)@, working_tree@, timestamp as nat) {
                Err(e) => res matches Err(error) && error@ == e && final(self)@ == old(self)@,
                Ok(None) => res == Ok::<Option<u64>, VcError>(None) && final(self)@ == old(
                    self,
                )@,
                Ok(Some(after)) => if after.head <= u64::MAX {
                    res == Ok::<Option<u64>, VcError>(Some(after.head as u64)) && final(self)@
                        == after
                } else {
                    res == Err::<Option<u64>, VcError>(VcError::IdsExhausted) && final(self)@
                        == old(self)@
                },
            },
    {
        let current = match reconstruct_ast(self.head, &self.store) {
            Ok(current) => current,
            Err(e) => {
                return Err(e);
            },
        };
        let mut path: Vec<usize> = Vec::new();
        proof {
            assert(crate::instruction::path_view(path@) =~= Seq::<nat>::empty());
        }
        let instructions = diff_ast(&current, working_tree, &mut path);
        if instructions.len() == 0 {
            return Ok(None);
        }
        let newest: u64 = self.store.newest_id().unwrap();
        if newest == u64::MAX {
            return Err(VcError::IdsExhausted);
        }
        let id: u64 = newest + 1;
        let commit = Commit { id, parent_id: Some(self.head), instructions, timestamp };
        let appended = self.store.append(commit);
        assert(appended is Ok);
        self.head = id;
        Ok(Some(id))
    }

    /// The commit at the head and its ancestors, newest first.
    pub fn log(&self) -> (res: Result<Vec<CommitSummary>, VcError>)
        ensures
            match chain(self@.log, self@.head) {
                Ok(commits) => res matches Ok(summaries) && summaries@.len() == commits.len()
                    && forall|i: int|
                    0 <= i < commits.len() ==> (#[trigger] summaries@[i]).is_of(commits[i]),
                Err(e) => res matches Err(error) && error@ == e,
            },
    {
        let commits = match ancestry(self.head, &self.store) {
            Ok(commits) => commits,
            Err(e) => {
                return Err(e);
            },
        };
        let mut summaries: Vec<CommitSummary> = Vec::new();
        let mut i: usize = 0;
        while i < commits.len()
            invariant
                i <= commits.len(),
                summaries@.len() == i,
                forall|k: int|
                    0 <= k < i ==> (#[trigger] summaries@[k]).is_of(borrowed_views(commits@)[k]),
            decreases commits.len() - i,
        {
            let commit = commits[i];
            summaries.push(
                CommitSummary {
                    id: commit.id,
                    parent_id: commit.parent_id,
                    timestamp: commit.timestamp,
                },
            );
            i += 1;
        }
        Ok(summaries)
    }

    /// Moves the head to the commit `id` and returns the source text of the
    /// snapshot there. Where the snapshot cannot be rebuilt, the head stays.
    pub fn checkout(&mut self, id: u64) -> (res: Result<String, VcError>)
        ensures
            final(self)@.log == old(self)@.log,
            match reconstruct(old(self)@.log, id as nat) {
                Ok(tree) => res matches Ok(text) && text@ == source_text(tree) && final(self)@.head
                    == id,
                Err(e) => res matches Err(error) && error@ == e && final(self)@.head == old(
                    self,
                )@.head,
            },
    {
        let ast = match reconstruct_ast(id, &self.store) {
            Ok(ast) => ast,
            Err(e) => {
                return Err(e);
            },
        };
        self.head = id;
        Ok(render_source(&ast))
    }

    /// The listing of the instructions of the commit `id`.
    pub fn debug(&self, id: u64) -> (res: Result<Vec<String>, VcError>)
        ensures
            match find(self@.log, id as nat) {
                Some(commit) => res matches Ok(found) && texts(found@) == listing(
                    commit.instructions,
                ),
                None => res matches Err(error) && error@ == (VcFailure::UnknownCommit {
                    id: id as nat,
                }),
            },
    {
        match self.store.get(id) {
            Some(commit) => Ok(list_instructions(&commit.instructions)),
            None => Err(VcError::UnknownCommit { id }),
        }
    }
}

} // verus!
