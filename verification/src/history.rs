//! What holds of a history as commits are added to it.

use vstd::prelude::*;
use crate::apply::{apply_all, ApplyFailure};
use crate::ast::Tree;
use crate::diff::diff;
use crate::repository::{commit_outcome, root_commit, RepositoryView};
use crate::theorems::theorem_round_trip;
use crate::vc::{
    append_check, chain, find, ids_grow, lemma_append_well_formed, lemma_find, lemma_parent_older,
    reconstruct, replay, well_formed, CommitView, VcFailure,
};

verus! {

/// No id of a log whose ids grow is greater than that of the newest commit.
pub proof fn lemma_newest_id(log: Seq<CommitView>, id: nat)
    requires
        ids_grow(log),
        find(log, id) is Some,
    ensures
        log.len() > 0,
        id <= log.last().id,
{
    lemma_find(log, id);
    let found = find(log, id)->Some_0;
    let i = choose|i: int| 0 <= i < log.len() && log[i] == found && found.id == id;
    if i < log.len() - 1 {
        assert(log[i].id < log[log.len() - 1].id);
    }
}

/// Commits are never changed: what a store holds of a commit and of its
/// ancestors stays as it is when a commit is added.
pub proof fn theorem_history_kept(log: Seq<CommitView>, added: CommitView, id: nat)
    requires
        well_formed(log),
        append_check(log, added) is None,
        find(log, id) is Some,
    ensures
        find(log.push(added), id) == find(log, id),
        chain(log.push(added), id) == chain(log, id),
        reconstruct(log.push(added), id) == reconstruct(log, id),
    decreases id,
{
    let longer = log.push(added);
    lemma_newest_id(log, id);
    assert(longer.drop_last() =~= log);
    assert(longer.last() == added);
    lemma_parent_older(log, id);
    if let Some(p) = find(log, id)->Some_0.parent_id {
        theorem_history_kept(log, added, p);
    }
}

/// The repository after `tree` was committed to `repo`: `repo` itself where
/// nothing was recorded.
pub open spec fn after_commit(repo: RepositoryView, tree: Tree, timestamp: nat) -> RepositoryView {
    match commit_outcome(repo, tree, timestamp) {
        Ok(Some(after)) => after,
        _ => repo,
    }
}

/// After a snapshot was committed, the snapshot at the head is the one
/// that was committed.
pub proof fn theorem_commit_reconstructs(repo: RepositoryView, tree: Tree, timestamp: nat)
    requires
        well_formed(repo.log),
        reconstruct(repo.log, repo.head) is Ok,
    ensures
        well_formed(after_commit(repo, tree, timestamp).log),
        reconstruct(
            after_commit(repo, tree, timestamp).log,
            after_commit(repo, tree, timestamp).head,
        ) == Ok::<Tree, VcFailure>(tree),
{
    let current = reconstruct(repo.log, repo.head)->Ok_0;
    let changes = diff(current, tree, Seq::empty());
    theorem_round_trip(current, tree);
    if changes.len() == 0 {
        assert(apply_all(current, changes) == Ok::<Tree, ApplyFailure>(current));
    } else {
        let after = after_commit(repo, tree, timestamp);
        let added = after.log.last();
        let older = chain(repo.log, repo.head)->Ok_0;
        lemma_newest_id(repo.log, repo.head);
        lemma_append_well_formed(repo.log, added);
        theorem_history_kept(repo.log, added, repo.head);
        assert(after.log.drop_last() =~= repo.log);
        assert(chain(after.log, after.head) == Ok::<Seq<CommitView>, VcFailure>(
            seq![added] + older,
        ));
        assert((seq![added] + older).skip(1) =~= older);
    }
}

/// The repository after each of `snapshots` was committed in turn to a new
/// repository, the commit of snapshot `i` with the timestamp
/// `timestamps[i]`.
pub open spec fn committed(snapshots: Seq<Tree>, timestamps: Seq<nat>) -> RepositoryView
    decreases snapshots.len(),
{
    if snapshots.len() == 0 {
        RepositoryView { log: seq![root_commit()], head: 0 }
    } else {
        after_commit(
            committed(snapshots.drop_last(), timestamps),
            snapshots.last(),
            if snapshots.len() <= timestamps.len() {
                timestamps[snapshots.len() - 1]
            } else {
                0
            },
        )
    }
}

/// After a sequence of snapshots was committed to a new repository, one
/// after the other, the snapshot at the head is the last of them; it is
/// the empty list where there was none.
pub proof fn theorem_commit_sequence(snapshots: Seq<Tree>, timestamps: Seq<nat>)
    ensures
        well_formed(committed(snapshots, timestamps).log),
        reconstruct(committed(snapshots, timestamps).log, committed(snapshots, timestamps).head)
            == Ok::<Tree, VcFailure>(
            if snapshots.len() == 0 {
                Tree::empty()
            } else {
                snapshots.last()
            },
        ),
    decreases snapshots.len(),
{
    if snapshots.len() == 0 {
        let log = seq![root_commit()];
        assert(log.drop_last() =~= Seq::<CommitView>::empty());
        assert(find(log, 0) == Some(root_commit()));
        assert(chain(log, 0) == Ok::<Seq<CommitView>, VcFailure>(seq![root_commit()]));
        assert(seq![root_commit()].skip(1) =~= Seq::<CommitView>::empty());
        assert(apply_all(Tree::empty(), root_commit().instructions) == Ok::<Tree, ApplyFailure>(
            Tree::empty(),
        ));
        assert(replay(Seq::<CommitView>::empty()) == Ok::<Tree, VcFailure>(Tree::empty()));
        assert(replay(seq![root_commit()]) == Ok::<Tree, VcFailure>(Tree::empty()));
    } else {
        let before = committed(snapshots.drop_last(), timestamps);
        theorem_commit_sequence(snapshots.drop_last(), timestamps);
        let timestamp = if snapshots.len() <= timestamps.len() {
            timestamps[snapshots.len() - 1]
        } else {
            0
        };
        theorem_commit_reconstructs(before, snapshots.last(), timestamp);
    }
}

} // verus!
