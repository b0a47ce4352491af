use trefoil::apply::ApplyError;
use trefoil::ast::Ast;
use trefoil::instruction::Instruction;
use trefoil::repository::{CommitSummary, Repository};
use trefoil::vc::{
    ancestry, get_commit_chain, reconstruct_ast, AppendError, Commit, CommitStore, VcError,
};

fn atom(text: &str) -> Ast {
    Ast::Atom(text.to_string())
}

fn list(children: Vec<Ast>) -> Ast {
    Ast::List(children)
}

fn root() -> Commit {
    Commit { id: 0, parent_id: None, instructions: vec![], timestamp: 0 }
}

fn child(id: u64, parent: u64, instructions: Vec<Instruction>) -> Commit {
    Commit { id, parent_id: Some(parent), instructions, timestamp: 10 * id }
}

fn store_of(commits: Vec<Commit>) -> CommitStore {
    let mut store = CommitStore::new();
    for commit in commits {
        assert_eq!(store.append(commit), Ok(()));
    }
    store
}

fn insert(index: usize, text: &str) -> Instruction {
    Instruction::Insert { path: vec![], index, node: atom(text) }
}

#[test]
fn a_new_store_is_empty() {
    let store = CommitStore::new();
    assert_eq!(store.len(), 0);
    assert_eq!(store.newest_id(), None);
    assert_eq!(store.get(0), None);
    store.note_well_formed();
}

#[test]
fn a_store_finds_its_commits_by_id() {
    let store = store_of(vec![
        root(),
        child(1, 0, vec![insert(0, "a")]),
        child(4, 1, vec![]),
        child(9, 0, vec![insert(0, "b")]),
        child(10, 9, vec![]),
    ]);
    assert_eq!(store.len(), 5);
    assert_eq!(store.newest_id(), Some(10));
    for id in [0u64, 1, 4, 9, 10] {
        assert_eq!(store.get(id).map(|commit| commit.id), Some(id));
    }
    for id in [2u64, 3, 5, 8, 11, u64::MAX] {
        assert_eq!(store.get(id), None);
    }
    assert_eq!(store.get(9), Some(&child(9, 0, vec![insert(0, "b")])));
}

#[test]
fn a_store_takes_only_commits_that_follow() {
    let mut store = store_of(vec![root(), child(3, 0, vec![])]);
    assert_eq!(store.append(child(3, 0, vec![])), Err(AppendError::IdNotNew));
    assert_eq!(store.append(child(2, 0, vec![])), Err(AppendError::IdNotNew));
    assert_eq!(
        store.append(Commit { id: 4, parent_id: None, instructions: vec![], timestamp: 0 }),
        Err(AppendError::ParentMissing)
    );
    assert_eq!(store.append(child(4, 2, vec![])), Err(AppendError::ParentUnknown));
    assert_eq!(store.append(child(4, 4, vec![])), Err(AppendError::ParentUnknown));
    assert_eq!(store.len(), 2);
    assert_eq!(store.append(child(4, 3, vec![])), Ok(()));
    assert_eq!(store.len(), 3);

    let mut empty = CommitStore::new();
    assert_eq!(empty.append(child(0, 0, vec![])), Err(AppendError::RootWithParent));
    assert_eq!(empty.append(child(1, 0, vec![])), Err(AppendError::ParentUnknown));
    assert_eq!(empty.len(), 0);
}

#[test]
fn a_chain_runs_from_the_commit_to_the_root() {
    let store = store_of(vec![
        root(),
        child(1, 0, vec![insert(0, "a")]),
        child(2, 0, vec![insert(0, "x")]),
        child(3, 1, vec![insert(1, "b")]),
    ]);
    assert_eq!(
        get_commit_chain(3, &store),
        Ok(vec![
            child(3, 1, vec![insert(1, "b")]),
            child(1, 0, vec![insert(0, "a")]),
            root()
        ])
    );
    assert_eq!(get_commit_chain(0, &store), Ok(vec![root()]));
    assert_eq!(
        ancestry(2, &store).map(|chain| chain.iter().map(|commit| commit.id).collect::<Vec<u64>>()),
        Ok(vec![2, 0])
    );
    assert_eq!(get_commit_chain(7, &store), Err(VcError::UnknownCommit { id: 7 }));
}

#[test]
fn a_snapshot_is_rebuilt_oldest_commit_first() {
    let store = store_of(vec![
        root(),
        child(1, 0, vec![insert(0, "a")]),
        child(2, 0, vec![insert(0, "x")]),
        child(3, 1, vec![insert(1, "b"), insert(2, "c")]),
        child(4, 3, vec![Instruction::Delete { path: vec![], index: 0 }]),
    ]);
    assert_eq!(reconstruct_ast(0, &store), Ok(list(vec![])));
    assert_eq!(reconstruct_ast(1, &store), Ok(list(vec![atom("a")])));
    assert_eq!(reconstruct_ast(2, &store), Ok(list(vec![atom("x")])));
    assert_eq!(
        reconstruct_ast(3, &store),
        Ok(list(vec![atom("a"), atom("b"), atom("c")]))
    );
    assert_eq!(reconstruct_ast(4, &store), Ok(list(vec![atom("b"), atom("c")])));
    assert_eq!(reconstruct_ast(5, &store), Err(VcError::UnknownCommit { id: 5 }));
}

#[test]
fn a_commit_that_does_not_apply_is_named() {
    let store = store_of(vec![
        root(),
        child(1, 0, vec![insert(0, "a")]),
        child(2, 1, vec![insert(0, "b"), insert(5, "c")]),
        child(3, 2, vec![]),
    ]);
    assert_eq!(
        reconstruct_ast(3, &store),
        Err(VcError::Apply {
            commit: 2,
            error: ApplyError::IndexOutOfBounds { path: vec![], index: 5, len: 2 }
        })
    );
    assert_eq!(reconstruct_ast(1, &store), Ok(list(vec![atom("a")])));
}

#[test]
fn a_new_repository_holds_the_root_commit() {
    let repo = Repository::init();
    assert_eq!(repo.head(), 0);
    assert_eq!(repo.store().len(), 1);
    assert_eq!(repo.store().get(0), Some(&root()));
    assert_eq!(reconstruct_ast(0, repo.store()), Ok(list(vec![])));
}

#[test]
fn committing_the_empty_tree_and_then_one_atom() {
    let mut repo = Repository::init();
    assert_eq!(repo.commit(&list(vec![]), 0), Ok(None));
    assert_eq!(repo.head(), 0);
    assert_eq!(repo.store().len(), 1);

    assert_eq!(repo.commit(&list(vec![atom("a")]), 0), Ok(Some(1)));
    assert_eq!(repo.head(), 1);
    assert_eq!(
        repo.store().get(1),
        Some(&Commit {
            id: 1,
            parent_id: Some(0),
            instructions: vec![Instruction::Replace { path: vec![], node: list(vec![atom("a")]) }],
            timestamp: 0
        })
    );
    assert_eq!(reconstruct_ast(1, repo.store()), Ok(list(vec![atom("a")])));
    assert_eq!(reconstruct_ast(0, repo.store()), Ok(list(vec![])));
}

#[test]
fn each_committed_snapshot_can_be_rebuilt() {
    let snapshots = vec![
        list(vec![atom("a")]),
        list(vec![atom("b")]),
        list(vec![atom("b")]),
        list(vec![atom("b"), list(vec![atom("c"), atom("d")])]),
        list(vec![atom("b"), list(vec![atom("c"), atom("e")])]),
        atom("f"),
        list(vec![]),
    ];
    let mut repo = Repository::init();
    let mut ids = vec![];
    for (i, snapshot) in snapshots.iter().enumerate() {
        let made = repo.commit(snapshot, i as u64).unwrap();
        ids.push(repo.head());
        assert_eq!(made.is_none(), i == 2);
        assert_eq!(reconstruct_ast(repo.head(), repo.store()), Ok(snapshot.clone()));
    }
    assert_eq!(ids, vec![1, 2, 2, 3, 4, 5, 6]);
    for (i, snapshot) in snapshots.iter().enumerate() {
        assert_eq!(reconstruct_ast(ids[i], repo.store()), Ok(snapshot.clone()));
    }
    assert_eq!(
        repo.store().get(4).map(|commit| commit.instructions.clone()),
        Some(vec![Instruction::Update { path: vec![1, 1], new_value: "e".to_string() }])
    );
    assert_eq!(repo.store().get(4).map(|commit| commit.timestamp), Some(4));
}

#[test]
fn a_commit_after_a_checkout_gets_the_next_free_id() {
    let mut repo = Repository::init();
    assert_eq!(repo.commit(&list(vec![atom("a")]), 1), Ok(Some(1)));
    assert_eq!(repo.commit(&list(vec![atom("b")]), 2), Ok(Some(2)));
    assert_eq!(repo.checkout(1), Ok("a".to_string()));
    assert_eq!(repo.head(), 1);
    assert_eq!(repo.commit(&list(vec![atom("c")]), 3), Ok(Some(3)));
    assert_eq!(repo.store().get(3).map(|commit| commit.parent_id), Some(Some(1)));
    assert_eq!(
        repo.log(),
        Ok(vec![
            CommitSummary { id: 3, parent_id: Some(1), timestamp: 3 },
            CommitSummary { id: 1, parent_id: Some(0), timestamp: 1 },
            CommitSummary { id: 0, parent_id: None, timestamp: 0 },
        ])
    );
    assert_eq!(reconstruct_ast(2, repo.store()), Ok(list(vec![atom("b")])));
}

#[test]
fn a_checkout_gives_the_source_text() {
    let mut repo = Repository::init();
    let first = list(vec![list(vec![atom("define"), atom("x"), atom("10")])]);
    let second = list(vec![
        list(vec![atom("define"), atom("x"), atom("10")]),
        list(vec![atom("print"), atom("x")]),
    ]);
    repo.commit(&first, 0).unwrap();
    repo.commit(&second, 0).unwrap();
    assert_eq!(repo.checkout(1), Ok("(define x 10)".to_string()));
    assert_eq!(repo.checkout(2), Ok("(define x 10)\n(print x)".to_string()));
    assert_eq!(repo.checkout(0), Ok("".to_string()));
    assert_eq!(repo.head(), 0);
    assert_eq!(repo.checkout(3), Err(VcError::UnknownCommit { id: 3 }));
    assert_eq!(repo.head(), 0);
    assert_eq!(repo.store().len(), 3);
}

#[test]
fn the_listing_of_a_commit() {
    let mut repo = Repository::init();
    repo.commit(&list(vec![atom("a"), list(vec![atom("b")])]), 0).unwrap();
    repo.commit(&list(vec![atom("c"), list(vec![])]), 0).unwrap();
    assert_eq!(repo.debug(0), Ok(vec![]));
    assert_eq!(
        repo.debug(1),
        Ok(vec!["1. Replace at path () with (a (b))".to_string()])
    );
    assert_eq!(
        repo.debug(2),
        Ok(vec![
            "1. Update at path (0) with value c".to_string(),
            "2. Replace at path (1) with ()".to_string()
        ])
    );
    assert_eq!(repo.debug(3), Err(VcError::UnknownCommit { id: 3 }));
}

#[test]
fn a_repository_is_opened_at_a_commit_of_the_store() {
    let commits = vec![root(), child(1, 0, vec![insert(0, "a")])];
    let repo = Repository::open(store_of(commits.clone()), 1).unwrap();
    assert_eq!(repo.head(), 1);
    assert_eq!(
        repo.log(),
        Ok(vec![
            CommitSummary { id: 1, parent_id: Some(0), timestamp: 10 },
            CommitSummary { id: 0, parent_id: None, timestamp: 0 },
        ])
    );
    assert_eq!(
        Repository::open(store_of(commits), 2).map(|repo| repo.head()),
        Err(VcError::UnknownCommit { id: 2 })
    );
}

#[test]
fn no_commit_follows_the_greatest_id() {
    let store = store_of(vec![root(), child(u64::MAX, 0, vec![insert(0, "a")])]);
    let mut repo = Repository::open(store, u64::MAX).unwrap();
    assert_eq!(repo.commit(&list(vec![atom("a")]), 0), Ok(None));
    assert_eq!(repo.commit(&list(vec![atom("b")]), 0), Err(VcError::IdsExhausted));
    assert_eq!(repo.head(), u64::MAX);
    assert_eq!(repo.store().len(), 2);
}

#[test]
fn a_commit_on_a_broken_history_fails() {
    let store = store_of(vec![root(), child(1, 0, vec![insert(3, "a")])]);
    let mut repo = Repository::open(store, 1).unwrap();
    assert_eq!(
        repo.commit(&list(vec![]), 0),
        Err(VcError::Apply {
            commit: 1,
            error: ApplyError::IndexOutOfBounds { path: vec![], index: 3, len: 0 }
        })
    );
    assert_eq!(repo.head(), 1);
    assert_eq!(repo.store().len(), 2);
}
