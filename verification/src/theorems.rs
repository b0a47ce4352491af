//! What holds of the diff and patch engines together.

use vstd::prelude::*;
use crate::apply::{apply, apply_all, edit_node, graft, locate, ApplyFailure};
use crate::ast::Tree;
use crate::diff::{diff, diff_children};
use crate::instruction::Edit;

verus! {

/// Applying `first + second` is applying `first` and then, where that
/// succeeded, `second` to its outcome.
pub proof fn lemma_apply_all_concat(tree: Tree, first: Seq<Edit>, second: Seq<Edit>)
    ensures
        apply_all(tree, first + second) == match apply_all(tree, first) {
            Ok(between) => apply_all(between, second),
            Err(e) => Err(e),
        },
    decreases second.len(),
{
    if second.len() == 0 {
        assert(first + second =~= first);
    } else {
        assert((first + second).drop_last() =~= first + second.drop_last());
        lemma_apply_all_concat(tree, first, second.drop_last());
    }
}

/// Applying a single edit as a sequence is applying the edit.
pub proof fn lemma_apply_all_single(tree: Tree, edit: Edit)
    ensures
        apply_all(tree, seq![edit]) == apply(tree, edit),
{
    assert(seq![edit].drop_last() =~= Seq::<Edit>::empty());
    assert(apply_all(tree, Seq::<Edit>::empty()) == Ok::<Tree, ApplyFailure>(tree));
}

/// Putting back the node that a path leads to changes nothing.
pub proof fn lemma_graft_same(root: Tree, path: Seq<nat>, depth: nat, node: Tree)
    requires
        locate(root, path, depth) == Ok::<Tree, ApplyFailure>(node),
    ensures
        graft(root, path, depth, node) == root,
    decreases path.len() - depth,
{
    if depth < path.len() {
        let items = root->List_0;
        let i = path[depth as int] as int;
        lemma_graft_same(items[i], path, depth + 1, node);
        assert(items.update(i, items[i]) =~= items);
    }
}

/// After a graft the path leads to the new node, and a second graft at the
/// same place overrides the first.
pub proof fn lemma_graft_then(root: Tree, path: Seq<nat>, depth: nat, first: Tree, second: Tree)
    requires
        locate(root, path, depth) is Ok,
    ensures
        locate(graft(root, path, depth, first), path, depth) == Ok::<Tree, ApplyFailure>(first),
        graft(graft(root, path, depth, first), path, depth, second) == graft(
            root,
            path,
            depth,
            second,
        ),
    decreases path.len() - depth,
{
    if depth < path.len() {
        let items = root->List_0;
        let i = path[depth as int] as int;
        lemma_graft_then(items[i], path, depth + 1, first, second);
        let child = graft(items[i], path, depth + 1, first);
        assert(items.update(i, child).update(i, graft(child, path, depth + 1, second))
            =~= items.update(i, graft(items[i], path, depth + 1, second)));
    }
}

/// Where a path leads to a list, the path extended by `i` leads to the
/// list's child `i`, and grafting there is grafting the list with that
/// child exchanged.
pub proof fn lemma_child_path(
    root: Tree,
    path: Seq<nat>,
    depth: nat,
    items: Seq<Tree>,
    i: nat,
    new: Tree,
)
    requires
        depth <= path.len(),
        locate(root, path, depth) == Ok::<Tree, ApplyFailure>(Tree::List(items)),
        i < items.len(),
    ensures
        locate(root, path.push(i), depth) == Ok::<Tree, ApplyFailure>(items[i as int]),
        graft(root, path.push(i), depth, new) == graft(
            root,
            path,
            depth,
            Tree::List(items.update(i as int, new)),
        ),
    decreases path.len() - depth,
{
    let longer = path.push(i);
    if depth < path.len() {
        let children = root->List_0;
        let k = path[depth as int] as int;
        assert(longer[depth as int] == path[depth as int]);
        lemma_child_path(children[k], path, depth + 1, items, i, new);
    } else {
        assert(longer[depth as int] == i);
        assert(locate(items[i as int], longer, depth + 1) == Ok::<Tree, ApplyFailure>(
            items[i as int],
        ));
        assert(graft(items[i as int], longer, depth + 1, new) == new);
    }
}

/// The first `n` children taken from `ys`, the others from `xs`.
pub open spec fn merged(xs: Seq<Tree>, ys: Seq<Tree>, n: nat) -> Seq<Tree> {
    Seq::new(xs.len(), |k: int| if k < n { ys[k] } else { xs[k] })
}

/// Where `path` leads from `root` to `old`, the edits of
/// `diff(old, new, path)` all apply to `root`, and put `new` in the place of
/// `old`.
pub proof fn lemma_diff_applies(root: Tree, old_tree: Tree, new_tree: Tree, path: Seq<nat>)
    requires
        locate(root, path, 0) == Ok::<Tree, ApplyFailure>(old_tree),
    ensures
        apply_all(root, diff(old_tree, new_tree, path)) == Ok::<Tree, ApplyFailure>(
            graft(root, path, 0, new_tree),
        ),
    decreases old_tree, 0nat,
{
    match (old_tree, new_tree) {
        (Tree::Atom(a), Tree::Atom(b)) => {
            if a == b {
                lemma_graft_same(root, path, 0, old_tree);
            } else {
                let edit = Edit::Update { path, new_value: b };
                lemma_apply_all_single(root, edit);
                assert(edit_node(old_tree, edit) == Ok::<Tree, ApplyFailure>(new_tree));
            }
        },
        (Tree::List(xs), Tree::List(ys)) => {
            if xs.len() == ys.len() {
                lemma_diff_children_apply(root, xs, ys, path, xs.len());
                assert(merged(xs, ys, xs.len()) =~= ys);
            } else {
                let edit = Edit::Replace { path, node: new_tree };
                lemma_apply_all_single(root, edit);
            }
        },
        _ => {
            let edit = Edit::Replace { path, node: new_tree };
            lemma_apply_all_single(root, edit);
        },
    }
}

/// The edits for the first `n` children of a list exchange just these
/// children.
pub proof fn lemma_diff_children_apply(
    root: Tree,
    xs: Seq<Tree>,
    ys: Seq<Tree>,
    path: Seq<nat>,
    n: nat,
)
    requires
        locate(root, path, 0) == Ok::<Tree, ApplyFailure>(Tree::List(xs)),
        xs.len() == ys.len(),
        n <= xs.len(),
    ensures
        apply_all(root, diff_children(xs, ys, path, n)) == Ok::<Tree, ApplyFailure>(
            graft(root, path, 0, Tree::List(merged(xs, ys, n))),
        ),
    decreases xs, n,
{
    if n == 0 {
        assert(merged(xs, ys, 0) =~= xs);
        lemma_graft_same(root, path, 0, Tree::List(xs));
    } else {
        let m = (n - 1) as nat;
        let earlier = diff_children(xs, ys, path, m);
        let step = diff(xs[m as int], ys[m as int], path.push(m));
        let half = merged(xs, ys, m);
        let between = graft(root, path, 0, Tree::List(half));
        lemma_diff_children_apply(root, xs, ys, path, m);
        lemma_apply_all_concat(root, earlier, step);
        lemma_graft_then(root, path, 0, Tree::List(half), Tree::List(merged(xs, ys, n)));
        lemma_child_path(between, path, 0, half, m, ys[m as int]);
        assert(half[m as int] == xs[m as int]);
        lemma_diff_applies(between, xs[m as int], ys[m as int], path.push(m));
        assert(half.update(m as int, ys[m as int]) =~= merged(xs, ys, n));
        lemma_graft_then(
            root,
            path,
            0,
            Tree::List(half),
            Tree::List(half.update(m as int, ys[m as int])),
        );
    }
}

/// Applying the diff of two trees to the first gives the second.
pub proof fn theorem_round_trip(a: Tree, b: Tree)
    ensures
        apply_all(a, diff(a, b, Seq::empty())) == Ok::<Tree, ApplyFailure>(b),
{
    lemma_diff_applies(a, a, b, Seq::empty());
}

/// A tree does not differ from itself.
pub proof fn theorem_diff_same(a: Tree, path: Seq<nat>)
    ensures
        diff(a, a, path) == Seq::<Edit>::empty(),
    decreases a, 0nat,
{
    match a {
        Tree::Atom(_) => {},
        Tree::List(xs) => {
            lemma_diff_children_same(xs, path, xs.len());
        },
    }
}

/// Nor do the first `n` children of a list from themselves.
pub proof fn lemma_diff_children_same(xs: Seq<Tree>, path: Seq<nat>, n: nat)
    requires
        n <= xs.len(),
    ensures
        diff_children(xs, xs, path, n) == Seq::<Edit>::empty(),
    decreases xs, n,
{
    if n > 0 {
        let m = (n - 1) as nat;
        lemma_diff_children_same(xs, path, m);
        theorem_diff_same(xs[m as int], path.push(m));
        assert(diff_children(xs, xs, path, n) =~= Seq::<Edit>::empty());
    }
}

/// Every edit of a diff lies at or below the path that the diff was given.
pub proof fn lemma_diff_paths(old_tree: Tree, new_tree: Tree, path: Seq<nat>, j: int)
    requires
        0 <= j < diff(old_tree, new_tree, path).len(),
    ensures
        path.is_prefix_of(diff(old_tree, new_tree, path)[j].path()),
    decreases old_tree, 0nat,
{
    match (old_tree, new_tree) {
        (Tree::List(xs), Tree::List(ys)) => {
            if xs.len() == ys.len() {
                lemma_diff_children_paths(xs, ys, path, xs.len(), j);
            }
        },
        _ => {},
    }
}

/// Every edit for the children of a list lies below the list, under a child
/// that is one of those compared.
pub proof fn lemma_diff_children_paths(
    xs: Seq<Tree>,
    ys: Seq<Tree>,
    path: Seq<nat>,
    n: nat,
    j: int,
)
    requires
        n <= xs.len(),
        0 <= j < diff_children(xs, ys, path, n).len(),
    ensures
        ({
            let at = diff_children(xs, ys, path, n)[j].path();
            &&& path.is_prefix_of(at)
            &&& path.len() < at.len()
            &&& at[path.len() as int] < n
        }),
    decreases xs, n,
{
    if n > 0 {
        let m = (n - 1) as nat;
        let earlier = diff_children(xs, ys, path, m);
        if j < earlier.len() {
            lemma_diff_children_paths(xs, ys, path, m, j);
        } else {
            let below = path.push(m);
            lemma_diff_paths(xs[m as int], ys[m as int], below, j - earlier.len());
            let at = diff_children(xs, ys, path, n)[j].path();
            assert(below.is_prefix_of(at));
            assert(at[path.len() as int] == below[path.len() as int]);
            assert forall|k: int| 0 <= k < path.len() implies at[k] == path[k] by {
                assert(at[k] == below[k]);
            }
        }
    }
}

/// The two nodes that a diff of `a` and `b` compares at `path`, where the
/// first `depth` indices of `path` lead to `a` and to `b`: none where the
/// diff stops above it.
pub open spec fn compared_at(a: Tree, b: Tree, path: Seq<nat>, depth: nat) -> Option<(Tree, Tree)>
    decreases path.len() - depth,
{
    if depth >= path.len() {
        Some((a, b))
    } else {
        match (a, b) {
            (Tree::List(xs), Tree::List(ys)) => {
                let i = path[depth as int];
                if xs.len() == ys.len() && i < xs.len() {
                    compared_at(xs[i as int], ys[i as int], path, depth + 1)
                } else {
                    None
                }
            },
            _ => None,
        }
    }
}

/// `edits[k]` is `edit`, and no other of `edits` lies at or below `path`.
pub open spec fn sole_edit_under(edits: Seq<Edit>, path: Seq<nat>, k: int, edit: Edit) -> bool {
    &&& 0 <= k < edits.len()
    &&& edits[k] == edit
    &&& forall|j: int|
        0 <= j < edits.len() && j != k ==> !path.is_prefix_of(#[trigger] edits[j].path())
}

/// Where a diff comes upon two lists with different numbers of children,
/// it answers with one `Replace` of the whole list, and with nothing else
/// at or below that list.
pub proof fn lemma_replace_on_length_change(
    a: Tree,
    b: Tree,
    path: Seq<nat>,
    depth: nat,
    xs: Seq<Tree>,
    ys: Seq<Tree>,
) -> (k: int)
    requires
        depth <= path.len(),
        compared_at(a, b, path, depth) == Some((Tree::List(xs), Tree::List(ys))),
        xs.len() != ys.len(),
    ensures
        sole_edit_under(
            diff(a, b, path.take(depth as int)),
            path,
            k,
            Edit::Replace { path, node: Tree::List(ys) },
        ),
    decreases a, 0nat,
{
    let base = path.take(depth as int);
    if depth == path.len() {
        assert(base =~= path);
        0
    } else {
        let children = a->List_0;
        let others = b->List_0;
        lemma_replace_among_children(children, others, path, depth, children.len(), xs, ys)
    }
}

/// The same, for the edits of the first `n` children of a list on the way:
/// the one `Replace` comes with the child that the path goes through.
pub proof fn lemma_replace_among_children(
    children: Seq<Tree>,
    others: Seq<Tree>,
    path: Seq<nat>,
    depth: nat,
    n: nat,
    xs: Seq<Tree>,
    ys: Seq<Tree>,
) -> (k: int)
    requires
        depth < path.len(),
        children.len() == others.len(),
        n <= children.len(),
        path[depth as int] < children.len(),
        compared_at(
            children[path[depth as int] as int],
            others[path[depth as int] as int],
            path,
            depth + 1,
        ) == Some((Tree::List(xs), Tree::List(ys))),
        xs.len() != ys.len(),
    ensures
        ({
            let found = diff_children(children, others, path.take(depth as int), n);
            if path[depth as int] < n {
                sole_edit_under(found, path, k, Edit::Replace { path, node: Tree::List(ys) })
            } else {
                forall|j: int|
                    0 <= j < found.len() ==> !path.is_prefix_of(#[trigger] found[j].path())
            }
        }),
    decreases children, n,
{
    let base = path.take(depth as int);
    let through = path[depth as int];
    let found = diff_children(children, others, base, n);
    if n == 0 {
        0
    } else {
        let m = (n - 1) as nat;
        let earlier = diff_children(children, others, base, m);
        let below = base.push(m);
        let step = diff(children[m as int], others[m as int], below);
        let k0 = lemma_replace_among_children(children, others, path, depth, m, xs, ys);
        if m == through {
            assert(below =~= path.take(depth as int + 1));
            let k1 = lemma_replace_on_length_change(
                children[m as int],
                others[m as int],
                path,
                depth + 1,
                xs,
                ys,
            );
            let k = earlier.len() + k1;
            assert forall|j: int| 0 <= j < found.len() && j != k implies !path.is_prefix_of(
                #[trigger] found[j].path(),
            ) by {
                if j < earlier.len() {
                    assert(found[j] == earlier[j]);
                } else {
                    assert(found[j] == step[j - earlier.len()]);
                }
            }
            k
        } else {
            assert forall|j: int| earlier.len() <= j < found.len() implies !path.is_prefix_of(
                #[trigger] found[j].path(),
            ) by {
                let at = found[j].path();
                assert(found[j] == step[j - earlier.len()]);
                lemma_diff_paths(children[m as int], others[m as int], below, j - earlier.len());
                assert(at[depth as int] == below[depth as int]);
                if path.is_prefix_of(at) {
                    assert(at[depth as int] == path[depth as int]);
                }
            }
            assert forall|j: int| 0 <= j < earlier.len() implies found[j] == earlier[j] by {}
            k0
        }
    }
}

/// Where a diff of two whole trees comes upon two lists with different
/// numbers of children at `path`, its answer holds exactly one edit at or
/// below `path`: the `Replace` of that list by the new one.
pub proof fn theorem_replace_on_length_change(
    a: Tree,
    b: Tree,
    path: Seq<nat>,
    xs: Seq<Tree>,
    ys: Seq<Tree>,
) -> (k: int)
    requires
        compared_at(a, b, path, 0) == Some((Tree::List(xs), Tree::List(ys))),
        xs.len() != ys.len(),
    ensures
        sole_edit_under(
            diff(a, b, Seq::empty()),
            path,
            k,
            Edit::Replace { path, node: Tree::List(ys) },
        ),
{
    assert(path.take(0) =~= Seq::<nat>::empty());
    lemma_replace_on_length_change(a, b, path, 0, xs, ys)
}

} // verus!
