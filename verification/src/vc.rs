//! Commits, the store that holds them, and the rebuilding of snapshots.

use vstd::prelude::*;
use crate::apply::{apply_all, apply_instructions, ApplyError, ApplyFailure};
use crate::ast::{Ast, Tree};
use crate::instruction::{clone_instructions, edits, Edit, Instruction};

verus! {

/// The mathematical model of a commit.
pub struct CommitView {
    pub id: nat,
    pub parent_id: Option<nat>,
    pub instructions: Seq<Edit>,
    pub timestamp: nat,
}

/// One step of history: the instructions that lead from the parent's
/// snapshot to this one.
#[derive(Debug, PartialEq)]
pub struct Commit {
    pub id: u64,
    pub parent_id: Option<u64>,
    pub instructions: Vec<Instruction>,
    pub timestamp: u64,
}

impl View for Commit {
    type V = CommitView;

    open spec fn view(&self) -> CommitView {
        CommitView {
            id: self.id as nat,
            parent_id: match self.parent_id {
                Some(p) => Some(p as nat),
                None => None,
            },
            instructions: edits(self.instructions@),
            timestamp: self.timestamp as nat,
        }
    }
}

impl Clone for Commit {
    fn clone(&self) -> (res: Commit)
        ensures
            res@ == self@,
    {
        Commit {
            id: self.id,
            parent_id: self.parent_id,
            instructions: clone_instructions(&self.instructions),
            timestamp: self.timestamp,
        }
    }
}

/// The models of a sequence of commits, element by element.
pub open spec fn commit_views(commits: Seq<Commit>) -> Seq<CommitView> {
    commits.map_values(|commit: Commit| commit@)
}

/// The commit of `log` with the given id: the last one, should there be
/// several.
pub open spec fn find(log: Seq<CommitView>, id: nat) -> Option<CommitView>
    decreases log.len(),
{
    if log.len() == 0 {
        None
    } else if log.last().id == id {
        Some(log.last())
    } else {
        find(log.drop_last(), id)
    }
}

/// The ids of `log` grow from each commit to the next.
pub open spec fn ids_grow(log: Seq<CommitView>) -> bool {
    forall|i: int, j: int| 0 <= i < j < log.len() ==> log[i].id < log[j].id
}

/// Commit `i` of `log` is the root, with id 0 and no parent, or has a
/// parent that stands before it in `log` with a smaller id.
pub open spec fn parent_known(log: Seq<CommitView>, i: int) -> bool {
    match log[i].parent_id {
        None => log[i].id == 0,
        Some(p) => p < log[i].id && exists|k: int| 0 <= k < i && #[trigger] log[k].id == p,
    }
}

/// What holds of every store: ids grow, and every commit but the root has
/// its parent in the store.
pub open spec fn well_formed(log: Seq<CommitView>) -> bool {
    &&& ids_grow(log)
    &&& forall|i: int| 0 <= i < log.len() ==> parent_known(log, i)
}

/// In a log whose ids grow, `find` gives the one commit that has the id.
pub proof fn lemma_find(log: Seq<CommitView>, id: nat)
    requires
        ids_grow(log),
    ensures
        match find(log, id) {
            Some(c) => exists|i: int| 0 <= i < log.len() && log[i] == c && c.id == id,
            None => forall|i: int| 0 <= i < log.len() ==> (#[trigger] log[i]).id != id,
        },
    decreases log.len(),
{
    if log.len() > 0 {
        if log.last().id == id {
            assert(log[log.len() - 1] == log.last());
        } else {
            let shorter = log.drop_last();
            lemma_find(shorter, id);
            match find(shorter, id) {
                Some(c) => {
                    let i = choose|i: int| 0 <= i < shorter.len() && shorter[i] == c && c.id == id;
                    assert(log[i] == c);
                },
                None => {
                    assert forall|i: int| 0 <= i < log.len() implies (#[trigger] log[i]).id
                        != id by {
                        if i < shorter.len() {
                            assert(shorter[i].id != id);
                        }
                    }
                },
            }
        }
    }
}

/// In a log whose ids grow, `find` finds each commit by its id.
pub proof fn lemma_find_at(log: Seq<CommitView>, i: int)
    requires
        ids_grow(log),
        0 <= i < log.len(),
    ensures
        find(log, log[i].id) == Some(log[i]),
    decreases log.len(),
{
    if i < log.len() - 1 {
        assert(log[i].id < log.last().id);
        let shorter = log.drop_last();
        assert(shorter[i] == log[i]);
        lemma_find_at(shorter, i);
    }
}

/// Why a commit cannot be added to a store.
#[derive(Debug, Clone, Copy, PartialEq, Eq, Structural)]
pub enum AppendError {
    /// The id is not greater than every id in the store.
    IdNotNew,
    /// The commit has id 0 and names a parent.
    RootWithParent,
    /// The commit has another id than 0 and names no parent.
    ParentMissing,
    /// The parent that the commit names is not in the store.
    ParentUnknown,
}

/// Whether `commit` can follow the commits of `log`, and if not, why.
pub open spec fn append_check(log: Seq<CommitView>, commit: CommitView) -> Option<AppendError> {
    if log.len() > 0 && commit.id <= log.last().id {
        Some(AppendError::IdNotNew)
    } else {
        match commit.parent_id {
            None => if commit.id == 0 {
                None
            } else {
                Some(AppendError::ParentMissing)
            },
            Some(p) => if commit.id == 0 {
                Some(AppendError::RootWithParent)
            } else if find(log, p) is None {
                Some(AppendError::ParentUnknown)
            } else {
                None
            },
        }
    }
}

/// A well-formed log stays so when a commit that passes `append_check`
/// is added.
pub proof fn lemma_append_well_formed(log: Seq<CommitView>, commit: CommitView)
    requires
        well_formed(log),
        append_check(log, commit) is None,
    ensures
        well_formed(log.push(commit)),
{
    let longer = log.push(commit);
    assert forall|i: int, j: int| 0 <= i < j < longer.len() implies longer[i].id
        < longer[j].id by {
        if j == log.len() {
            if i < log.len() - 1 {
                assert(log[i].id < log[log.len() - 1].id);
            }
        }
    }
    assert forall|i: int| 0 <= i < longer.len() implies parent_known(longer, i) by {
        if i < log.len() {
            assert(parent_known(log, i));
            if let Some(p) = log[i].parent_id {
                let k = choose|k: int| 0 <= k < i && #[trigger] log[k].id == p;
                assert(longer[k].id == p);
            }
        } else {
            if let Some(p) = commit.parent_id {
                lemma_find(log, p);
                let found = find(log, p)->Some_0;
                let k = choose|k: int| 0 <= k < log.len() && log[k] == found && found.id == p;
                assert(longer[k].id == p);
                assert(log[k].id <= log.last().id) by {
                    if k < log.len() - 1 {
                        assert(log[k].id < log[log.len() - 1].id);
                    }
                }
            }
        }
    }
}

/// The commits of a repository, in the order in which they were made.
/// Commits are added at the end and never changed.
pub struct CommitStore {
    commits: Vec<Commit>,
}

impl View for CommitStore {
    type V = Seq<CommitView>;

    closed spec fn view(&self) -> Seq<CommitView> {
        commit_views(self.commits@)
    }
}

impl CommitStore {
    #[verifier::type_invariant]
    spec fn inv(self) -> bool {
        well_formed(self@)
    }

    /// A store without commits.
    pub fn new() -> (store: CommitStore)
        ensures
            store@ == Seq::<CommitView>::empty(),
    {
        let commits: Vec<Commit> = Vec::new();
        proof {
            assert(commit_views(commits@) =~= Seq::<CommitView>::empty());
        }
        CommitStore { commits }
    }

    /// Every store is well formed; a call makes that known where the store
    /// is used.
    pub fn note_well_formed(&self)
        ensures
            well_formed(self@),
    {
        proof {
            use_type_invariant(self);
        }
    }

    /// The number of commits.
    pub fn len(&self) -> (len: usize)
        ensures
            len == self@.len(),
    {
        self.commits.len()
    }

    /// The id of the newest commit.
    pub fn newest_id(&self) -> (id: Option<u64>)
        ensures
            match id {
                Some(id) => self@.len() > 0 && self@.last().id == id,
                None => self@.len() == 0,
            },
    {
        if self.commits.len() == 0 {
            None
        } else {
            Some(self.commits[self.commits.len() - 1].id)
        }
    }

    /// The commit with the given id.
    pub fn get(&self, id: u64) -> (found: Option<&Commit>)
        ensures
            match find(self@, id as nat) {
                Some(c) => found matches Some(commit) && commit@ == c,
                None => found is None,
            },
    {
        proof {
            use_type_invariant(self);
        }
        let ghost log = self@;
        let mut low: usize = 0;
        let mut high: usize = self.commits.len();
        while low < high
            invariant
                low <= high <= self.commits.len(),
                log == commit_views(self.commits@),
                ids_grow(log),
                forall|i: int| 0 <= i < low ==> (#[trigger] log[i]).id < id,
                forall|i: int| high <= i < log.len() ==> (#[trigger] log[i]).id > id,
            decreases high - low,
        {
            let mid: usize = low + (high - low) / 2;
            let commit = &self.commits[mid];
            if commit.id == id {
                proof {
                    assert(log[mid as int] == commit@);
                    lemma_find_at(log, mid as int);
                }
                return Some(commit);
            } else if commit.id < id {
                proof {
                    assert forall|i: int| 0 <= i < mid + 1 implies (#[trigger] log[i]).id < id by {
                        if i < mid {
                            assert(log[i].id < log[mid as int].id);
                        }
                    }
                }
                low = mid + 1;
            } else {
                proof {
                    assert forall|i: int| mid <= i < log.len() implies (#[trigger] log[i]).id
                        > id by {
                        if i > mid {
                            assert(log[mid as int].id < log[i].id);
                        }
                    }
                }
                high = mid;
            }
        }
        proof {
            lemma_find(log, id as nat);
        }
        None
    }

    /// Adds `commit` as the newest commit, where it can follow those of the
    /// store; otherwise the store stays as it is.
    pub fn append(&mut self, commit: Commit) -> (res: Result<(), AppendError>)
        ensures
            well_formed(old(self)@),
            well_formed(final(self)@),
            match append_check(old(self)@, commit@) {
                None => res is Ok && final(self)@ == old(self)@.push(commit@),
                Some(e) => res == Err::<(), AppendError>(e) && final(self)@ == old(self)@,
            },
    {
        proof {
            use_type_invariant(&*self);
        }
        if let Some(newest) = self.newest_id() {
            if commit.id <= newest {
                return Err(AppendError::IdNotNew);
            }
        }
        match commit.parent_id {
            None => {
                if commit.id != 0 {
                    return Err(AppendError::ParentMissing);
                }
            },
            Some(p) => {
                if commit.id == 0 {
                    return Err(AppendError::RootWithParent);
                }
                if self.get(p).is_none() {
                    return Err(AppendError::ParentUnknown);
                }
            },
        }
        let mut taken = CommitStore::new();
        core::mem::swap(self, &mut taken);
        let mut commits = taken.commits;
        proof {
            lemma_append_well_formed(commit_views(commits@), commit@);
            assert(commit_views(commits@.push(commit)) =~= commit_views(commits@).push(commit@));
        }
        commits.push(commit);
        *self = CommitStore { commits };
        Ok(())
    }
}

/// The mathematical model of a failure of the history.
pub enum VcFailure {
    UnknownCommit { id: nat },
    Apply { commit: nat, error: ApplyFailure },
    IdsExhausted,
}

/// Why a snapshot could not be rebuilt, or a commit not be made.
#[derive(Debug, PartialEq, Eq)]
pub enum VcError {
    /// The store holds no commit with this id.
    UnknownCommit { id: u64 },
    /// An instruction of this commit does not apply to the snapshot before
    /// it.
    Apply { commit: u64, error: ApplyError },
    /// The newest commit has the greatest id there is.
    IdsExhausted,
}

impl View for VcError {
    type V = VcFailure;

    open spec fn view(&self) -> VcFailure {
        match self {
            VcError::UnknownCommit { id } => VcFailure::UnknownCommit { id: *id as nat },
            VcError::Apply { commit, error } => VcFailure::Apply {
                commit: *commit as nat,
                error: error@,
            },
            VcError::IdsExhausted => VcFailure::IdsExhausted,
        }
    }
}

/// `front` followed by `rest`, where there is a rest.
pub open spec fn followed_by(
    front: Seq<CommitView>,
    rest: Result<Seq<CommitView>, VcFailure>,
) -> Result<Seq<CommitView>, VcFailure> {
    match rest {
        Ok(older) => Ok(front + older),
        Err(e) => Err(e),
    }
}

/// The commit with the given id and its ancestors, parent after child, down
/// to the commit without a parent. It fails at the first id that `log` does
/// not hold.
pub open spec fn chain(log: Seq<CommitView>, id: nat) -> Result<Seq<CommitView>, VcFailure>
    decreases id,
{
    match find(log, id) {
        None => Err(VcFailure::UnknownCommit { id }),
        Some(commit) => match commit.parent_id {
            None => Ok(seq![commit]),
            Some(p) => if p < id {
                followed_by(seq![commit], chain(log, p))
            } else {
                Err(VcFailure::UnknownCommit { id: p })
            },
        },
    }
}

/// The snapshot that a chain of commits stands for, the newest commit
/// first: the snapshot of the older commits, or the empty list where there
/// are none, with the instructions of the newest applied to it.
pub open spec fn replay(chain: Seq<CommitView>) -> Result<Tree, VcFailure>
    decreases chain.len(),
{
    if chain.len() == 0 {
        Ok(Tree::empty())
    } else {
        match replay(chain.skip(1)) {
            Ok(before) => match apply_all(before, chain[0].instructions) {
                Ok(after) => Ok(after),
                Err(error) => Err(VcFailure::Apply { commit: chain[0].id, error }),
            },
            Err(e) => Err(e),
        }
    }
}

/// The snapshot at the commit with the given id.
pub open spec fn reconstruct(log: Seq<CommitView>, id: nat) -> Result<Tree, VcFailure> {
    match chain(log, id) {
        Ok(commits) => replay(commits),
        Err(e) => Err(e),
    }
}

/// In a well-formed log every commit that names a parent has a greater id
/// than the parent, and the parent is in the log.
pub proof fn lemma_parent_older(log: Seq<CommitView>, id: nat)
    requires
        well_formed(log),
    ensures
        find(log, id) matches Some(commit) ==> commit.id == id && match commit.parent_id {
            Some(p) => p < id && find(log, p) is Some,
            None => id == 0,
        },
{
    lemma_find(log, id);
    if let Some(commit) = find(log, id) {
        let i = choose|i: int| 0 <= i < log.len() && log[i] == commit && commit.id == id;
        assert(parent_known(log, i));
        if let Some(p) = commit.parent_id {
            let k = choose|k: int| 0 <= k < i && #[trigger] log[k].id == p;
            lemma_find_at(log, k);
        }
    }
}

/// The models of a sequence of borrowed commits, element by element.
pub open spec fn borrowed_views(commits: Seq<&Commit>) -> Seq<CommitView> {
    commits.map_values(|commit: &Commit| commit@)
}

/// The commit with the given id and its ancestors, newest first, as they
/// stand in the store.
pub fn ancestry<'a>(id: u64, store: &'a CommitStore) -> (res: Result<Vec<&'a Commit>, VcError>)
    ensures
        match chain(store@, id as nat) {
            Ok(commits) => res matches Ok(found) && borrowed_views(found@) == commits,
            Err(e) => res matches Err(error) && error@ == e,
        },
{
    let mut found: Vec<&Commit> = Vec::new();
    let mut next: Option<u64> = Some(id);
    store.note_well_formed();
    proof {
        assert(borrowed_views(found@) =~= Seq::<CommitView>::empty());
        assert(Seq::<CommitView>::empty() + chain(store@, id as nat)->Ok_0 =~= chain(
            store@,
            id as nat,
        )->Ok_0);
    }
    while next.is_some()
        invariant
            well_formed(store@),
            chain(store@, id as nat) == followed_by(
                borrowed_views(found@),
                match next {
                    Some(at) => chain(store@, at as nat),
                    None => Ok(Seq::empty()),
                },
            ),
        decreases
            match next {
                Some(at) => at + 1,
                None => 0,
            },
    {
        let at: u64 = next.unwrap();
        proof {
            lemma_parent_older(store@, at as nat);
        }
        match store.get(at) {
            None => {
                return Err(VcError::UnknownCommit { id: at });
            },
            Some(commit) => {
                let ghost before = borrowed_views(found@);
                let ghost older = match commit.parent_id {
                    Some(p) => chain(store@, p as nat),
                    None => Ok(Seq::empty()),
                };
                found.push(commit);
                next = commit.parent_id;
                proof {
                    assert(borrowed_views(found@) =~= before.push(commit@));
                    if let Ok(rest) = older {
                        assert(before + (seq![commit@] + rest) =~= before.push(commit@) + rest);
                    }
                }
            },
        }
    }
    proof {
        assert(borrowed_views(found@) + Seq::<CommitView>::empty() =~= borrowed_views(found@));
    }
    Ok(found)
}

/// The commit with id `current_id` and its ancestors, newest first.
pub fn get_commit_chain(current_id: u64, store: &CommitStore) -> (res: Result<Vec<Commit>, VcError>)
    ensures
        match chain(store@, current_id as nat) {
            Ok(commits) => res matches Ok(found) && commit_views(found@) == commits,
            Err(e) => res matches Err(error) && error@ == e,
        },
{
    let borrowed = match ancestry(current_id, store) {
        Ok(borrowed) => borrowed,
        Err(e) => {
            return Err(e);
        },
    };
    let mut found: Vec<Commit> = Vec::new();
    let mut i: usize = 0;
    while i < borrowed.len()
        invariant
            i <= borrowed.len(),
            found@.len() == i,
            forall|k: int| 0 <= k < i ==> found@[k]@ == borrowed@[k]@,
        decreases borrowed.len() - i,
    {
        found.push(borrowed[i].clone());
        i += 1;
    }
    proof {
        assert(commit_views(found@) =~= borrowed_views(borrowed@));
    }
    Ok(found)
}

/// Rebuilds the snapshot at the commit with id `up_to_id`: starts from the
/// empty list and applies the instructions of the commit's ancestors and
/// its own, oldest first.
pub fn reconstruct_ast(up_to_id: u64, store: &CommitStore) -> (res: Result<Ast, VcError>)
    ensures
        match reconstruct(store@, up_to_id as nat) {
            Ok(tree) => res matches Ok(ast) && ast@ == tree,
            Err(e) => res matches Err(error) && error@ == e,
        },
{
    let commits = match ancestry(up_to_id, store) {
        Ok(commits) => commits,
        Err(e) => {
            return Err(e);
        },
    };
    let ghost newest_first = borrowed_views(commits@);
    let mut ast = Ast::empty();
    let mut left: usize = commits.len();
    proof {
        assert(newest_first.skip(left as int) =~= Seq::<CommitView>::empty());
    }
    while left > 0
        invariant
            left <= commits.len(),
            newest_first == borrowed_views(commits@),
            chain(store@, up_to_id as nat) == Ok::<Seq<CommitView>, VcFailure>(newest_first),
            replay(newest_first.skip(left as int)) == Ok::<Tree, VcFailure>(ast@),
        decreases left,
    {
        left -= 1;
        let commit = commits[left];
        proof {
            assert(newest_first.skip(left as int).skip(1) =~= newest_first.skip(left + 1));
            assert(newest_first.skip(left as int)[0] == commit@);
        }
        let ghost before = ast@;
        match apply_instructions(ast, &commit.instructions) {
            Ok(after) => {
                ast = after;
            },
            Err(error) => {
                proof {
                    assert(apply_all(before, commit@.instructions) == Err::<Tree, ApplyFailure>(
                        error@,
                    ));
                    assert(replay(newest_first.skip(left as int)) == Err::<Tree, VcFailure>(
                        VcFailure::Apply { commit: commit@.id, error: error@ },
                    ));
                    lemma_replay_failure(newest_first, left as int);
                }
                return Err(VcError::Apply { commit: commit.id, error });
            },
        }
    }
    proof {
        assert(newest_first.skip(0) =~= newest_first);
    }
    Ok(ast)
}

/// A failure among the older commits of a chain is the failure of the
/// chain.
pub proof fn lemma_replay_failure(chain: Seq<CommitView>, n: int)
    requires
        0 <= n <= chain.len(),
        replay(chain.skip(n)) is Err,
    ensures
        replay(chain) == replay(chain.skip(n)),
    decreases n,
{
    if n > 0 {
        assert(chain.skip(n - 1).skip(1) =~= chain.skip(n));
        lemma_replay_failure(chain, n - 1);
    } else {
        assert(chain.skip(0) =~= chain);
    }
}

} // verus!
