//! Reading back what was rendered: the text of a tree, tokenized and parsed,
//! is the tree again.

use vstd::prelude::*;
use crate::ast::{lemma_view_list, trees, Ast, Tree};
use crate::parser::{
    char_is_whitespace, close_token, expression_at, flush, is_whitespace, list_at, open_token,
    parse_tokens, scan, scan_step, tokens_of, top_level_at, ParseError,
};
use crate::repository::source_text;

verus! {

/// What the theorems of this file take of `char::is_whitespace`: that a
/// space and a line break are white space, and that parentheses are not.
pub open spec fn white_space_as_usual() -> bool {
    &&& is_whitespace(' ')
    &&& is_whitespace('\n')
    &&& !is_whitespace('(')
    &&& !is_whitespace(')')
}

/// Whether `c` can stand in a word: it is neither white space nor a
/// parenthesis.
pub open spec fn plain(c: char) -> bool {
    !is_whitespace(c) && c != '(' && c != ')'
}

/// Whether `text` is one word.
pub open spec fn is_word(text: Seq<char>) -> bool {
    text.len() > 0 && forall|i: int| 0 <= i < text.len() ==> plain(#[trigger] text[i])
}

/// Whether every atom of `tree` is one word.
pub open spec fn printable(tree: Tree) -> bool
    decreases tree,
{
    match tree {
        Tree::Atom(text) => is_word(text),
        Tree::List(items) => forall|i: int| 0 <= i < items.len() ==> printable(#[trigger] items[i]),
    }
}

/// Whether every atom of every tree of `items` is one word.
pub open spec fn all_printable(items: Seq<Tree>) -> bool {
    forall|i: int| 0 <= i < items.len() ==> printable(#[trigger] items[i])
}

/// The tokens of a tree: the text of an atom; the tokens of the children of
/// a list between parentheses.
pub open spec fn tree_tokens(tree: Tree) -> Seq<Seq<char>>
    decreases tree, 1nat,
{
    match tree {
        Tree::Atom(text) => seq![text],
        Tree::List(items) => seq![open_token()] + items_tokens(items) + seq![close_token()],
    }
}

/// The tokens of a sequence of trees, one tree after the other.
pub open spec fn items_tokens(items: Seq<Tree>) -> Seq<Seq<char>>
    decreases items, 0nat,
{
    if items.len() == 0 {
        Seq::empty()
    } else {
        items_tokens(items.drop_last()) + tree_tokens(items.last())
    }
}

/// A character more is a step more.
pub proof fn lemma_scan_push(text: Seq<char>, c: char)
    ensures
        scan(text.push(c)) == scan_step(scan(text).0, scan(text).1, c),
{
    assert(text.push(c).drop_last() =~= text);
}

/// The characters of a word go on with the word that was begun.
pub proof fn lemma_scan_plain(before: Seq<char>, text: Seq<char>)
    requires
        forall|i: int| 0 <= i < text.len() ==> plain(#[trigger] text[i]),
    ensures
        scan(before + text) == (scan(before).0, scan(before).1 + text),
    decreases text.len(),
{
    if text.len() == 0 {
        assert(before + text =~= before);
        assert(scan(before).1 + text =~= scan(before).1);
    } else {
        let shorter = text.drop_last();
        lemma_scan_plain(before, shorter);
        assert(before + text =~= (before + shorter).push(text.last()));
        lemma_scan_push(before + shorter, text.last());
        assert(plain(text[text.len() - 1]));
        assert((scan(before).1 + shorter).push(text.last()) =~= scan(before).1 + text);
    }
}

/// What the text of `tree` makes of the tokens `done`, where no word was
/// begun: an atom is the word begun; the tokens of a list are complete.
pub open spec fn after_tree(done: Seq<Seq<char>>, tree: Tree) -> (Seq<Seq<char>>, Seq<char>) {
    match tree {
        Tree::Atom(text) => (done, text),
        Tree::List(_) => (done + tree_tokens(tree), Seq::empty()),
    }
}

/// What the texts of `items`, joined, make of the tokens `done`, where no
/// word was begun.
pub open spec fn after_items(done: Seq<Seq<char>>, items: Seq<Tree>) -> (
    Seq<Seq<char>>,
    Seq<char>,
) {
    if items.len() == 0 {
        (done, Seq::empty())
    } else {
        after_tree(done + items_tokens(items.drop_last()), items.last())
    }
}

/// Once the word is ended, the tokens of `tree` have followed `done`.
pub proof fn lemma_flush_after_tree(done: Seq<Seq<char>>, tree: Tree)
    requires
        printable(tree),
    ensures
        flush(after_tree(done, tree).0, after_tree(done, tree).1) == done + tree_tokens(tree),
{
    match tree {
        Tree::Atom(text) => {
            assert(done.push(text) =~= done + seq![text]);
        },
        Tree::List(_) => {},
    }
}

/// Once the word is ended, the tokens of `items` have followed `done`.
pub proof fn lemma_flush_after_items(done: Seq<Seq<char>>, items: Seq<Tree>)
    requires
        all_printable(items),
    ensures
        flush(after_items(done, items).0, after_items(done, items).1) == done + items_tokens(items),
{
    if items.len() == 0 {
        assert(done + items_tokens(items) =~= done);
    } else {
        let earlier = done + items_tokens(items.drop_last());
        assert(printable(items[items.len() - 1]));
        lemma_flush_after_tree(earlier, items.last());
        assert(earlier + tree_tokens(items.last()) =~= done + items_tokens(items));
    }
}

/// Scanning the text of a tree, after a text that ends no word.
pub proof fn lemma_scan_tree(before: Seq<char>, tree: Tree)
    requires
        printable(tree),
        scan(before).1.len() == 0,
        white_space_as_usual(),
    ensures
        scan(before + tree.render()) == after_tree(scan(before).0, tree),
    decreases tree, 1nat,
{
    let done = scan(before).0;
    match tree {
        Tree::Atom(text) => {
            lemma_scan_plain(before, text);
            assert(scan(before).1 =~= Seq::<char>::empty());
            assert(scan(before).1 + text =~= text);
            assert(tree.render() == text);
        },
        Tree::List(items) => {
            let opened = before.push('(');
            let inner = Tree::joined(items, seq![' ']);
            lemma_scan_push(before, '(');
            assert(scan(before).1 =~= Seq::<char>::empty());
            assert(seq!['('] =~= open_token());
            assert(seq![')'] =~= close_token());
            assert(scan(opened) == (done.push(open_token()), Seq::<char>::empty()));
            lemma_scan_joined(opened, items, ' ');
            lemma_flush_after_items(done.push(open_token()), items);
            lemma_scan_push(opened + inner, ')');
            assert(before + tree.render() =~= (opened + inner).push(')'));
            assert((done.push(open_token()) + items_tokens(items)).push(close_token()) =~= done
                + tree_tokens(tree));
        },
    }
}

/// Scanning the texts of trees joined by a character of white space, after
/// a text that ends no word.
pub proof fn lemma_scan_joined(before: Seq<char>, items: Seq<Tree>, separator: char)
    requires
        all_printable(items),
        scan(before).1.len() == 0,
        white_space_as_usual(),
        is_whitespace(separator),
    ensures
        scan(before + Tree::joined(items, seq![separator])) == after_items(scan(before).0, items),
    decreases items, 0nat,
{
    let done = scan(before).0;
    if items.len() == 0 {
        assert(before + Tree::joined(items, seq![separator]) =~= before);
        assert(scan(before).1 =~= Seq::<char>::empty());
    } else if items.len() == 1 {
        assert(printable(items[0]));
        lemma_scan_tree(before, items[0]);
        assert(items_tokens(items.drop_last()) =~= Seq::<Seq<char>>::empty());
        assert(done + items_tokens(items.drop_last()) =~= done);
    } else {
        let earlier = items.drop_last();
        let joined = Tree::joined(earlier, seq![separator]);
        assert(all_printable(earlier)) by {
            assert forall|i: int| 0 <= i < earlier.len() implies printable(
                #[trigger] earlier[i],
            ) by {
                assert(printable(items[i]));
            }
        }
        lemma_scan_joined(before, earlier, separator);
        lemma_flush_after_items(done, earlier);
        lemma_scan_push(before + joined, separator);
        let spaced = (before + joined).push(separator);
        assert(scan(spaced) == (done + items_tokens(earlier), Seq::<char>::empty()));
        assert(printable(items[items.len() - 1]));
        lemma_scan_tree(spaced, items.last());
        assert(before + Tree::joined(items, seq![separator]) =~= spaced + items.last().render());
    }
}

/// The tokens of a sequence of trees are those of the first tree and then
/// those of the others.
pub proof fn lemma_items_tokens_front(items: Seq<Tree>)
    requires
        items.len() > 0,
    ensures
        items_tokens(items) == tree_tokens(items[0]) + items_tokens(items.skip(1)),
    decreases items.len(),
{
    if items.len() == 1 {
        assert(items.drop_last() =~= Seq::<Tree>::empty());
        assert(items.skip(1) =~= Seq::<Tree>::empty());
        assert(items_tokens(items) =~= tree_tokens(items[0]) + items_tokens(items.skip(1)));
    } else {
        let earlier = items.drop_last();
        lemma_items_tokens_front(earlier);
        assert(earlier.skip(1) =~= items.skip(1).drop_last());
        assert(items.skip(1).last() == items.last());
        assert(items_tokens(items) =~= tree_tokens(items[0]) + items_tokens(items.skip(1)));
    }
}

/// The tokens of a tree begin with a token that closes no list.
pub proof fn lemma_first_token(tree: Tree)
    requires
        printable(tree),
    ensures
        tree_tokens(tree).len() > 0,
        tree_tokens(tree)[0] != close_token(),
        tree matches Tree::Atom(text) ==> text != open_token() && text != close_token(),
{
    match tree {
        Tree::Atom(text) => {
            assert(plain(text[0]));
            assert(open_token()[0] == '(');
            assert(close_token()[0] == ')');
        },
        Tree::List(_) => {
            assert(open_token()[0] != close_token()[0]);
        },
    }
}

/// Where the tokens of a tree stand among others, its expression is read
/// there, and is the tree.
pub proof fn lemma_parse_tree(before: Seq<Seq<char>>, tree: Tree, after: Seq<Seq<char>>)
    requires
        printable(tree),
    ensures
        expression_at(before + tree_tokens(tree) + after, before.len()) == Ok::<
            (Tree, nat),
            ParseError,
        >((tree, before.len() + tree_tokens(tree).len())),
    decreases tree, 1nat,
{
    let tokens = before + tree_tokens(tree) + after;
    lemma_first_token(tree);
    assert(tokens[before.len() as int] == tree_tokens(tree)[0]);
    match tree {
        Tree::Atom(text) => {},
        Tree::List(items) => {
            let opened = before.push(open_token());
            assert(tokens =~= opened + items_tokens(items.skip(0)) + seq![close_token()] + after)
                by {
                assert(items.skip(0) =~= items);
            }
            lemma_parse_items(opened, items, 0, after, Seq::empty());
            assert(Seq::<Tree>::empty() + items.skip(0) =~= items);
        },
    }
}

/// Where the tokens of the trees from `items[k]` on stand before a `)`,
/// the children of a list are read there, and are these trees.
pub proof fn lemma_parse_items(
    before: Seq<Seq<char>>,
    items: Seq<Tree>,
    k: nat,
    after: Seq<Seq<char>>,
    read: Seq<Tree>,
)
    requires
        all_printable(items),
        k <= items.len(),
    ensures
        list_at(
            before + items_tokens(items.skip(k as int)) + seq![close_token()] + after,
            before.len(),
            read,
        ) == Ok::<(Tree, nat), ParseError>(
            (
                Tree::List(read + items.skip(k as int)),
                before.len() + items_tokens(items.skip(k as int)).len() + 1,
            ),
        ),
    decreases items, items.len() - k,
{
    let rest = items.skip(k as int);
    let tokens = before + items_tokens(rest) + seq![close_token()] + after;
    if k == items.len() {
        assert(items_tokens(rest) =~= Seq::<Seq<char>>::empty());
        assert(tokens[before.len() as int] == close_token());
        assert(read + rest =~= read);
    } else {
        let first = items[k as int];
        let others = items.skip(k as int + 1);
        assert(rest[0] == first);
        assert(rest.skip(1) =~= others);
        assert(printable(first));
        lemma_items_tokens_front(rest);
        lemma_first_token(first);
        let behind = items_tokens(others) + seq![close_token()] + after;
        assert(tokens =~= before + tree_tokens(first) + behind);
        assert(tokens[before.len() as int] == tree_tokens(first)[0]);
        lemma_parse_tree(before, first, behind);
        let further = before + tree_tokens(first);
        assert(tokens =~= further + items_tokens(others) + seq![close_token()] + after);
        lemma_parse_items(further, items, k + 1, after, read.push(first));
        assert(read.push(first) + others =~= read + rest);
    }
}

/// Where the tokens end with those of the trees from `items[k]` on, the
/// expressions of the top level are read there, and are these trees.
pub proof fn lemma_parse_top_level(
    before: Seq<Seq<char>>,
    items: Seq<Tree>,
    k: nat,
    read: Seq<Tree>,
)
    requires
        all_printable(items),
        k <= items.len(),
    ensures
        top_level_at(before + items_tokens(items.skip(k as int)), before.len(), read) == Ok::<
            Tree,
            ParseError,
        >(Tree::List(read + items.skip(k as int))),
    decreases items.len() - k,
{
    let rest = items.skip(k as int);
    let tokens = before + items_tokens(rest);
    if k == items.len() {
        assert(items_tokens(rest) =~= Seq::<Seq<char>>::empty());
        assert(tokens =~= before);
        assert(read + rest =~= read);
    } else {
        let first = items[k as int];
        let others = items.skip(k as int + 1);
        assert(rest[0] == first);
        assert(rest.skip(1) =~= others);
        assert(printable(first));
        lemma_items_tokens_front(rest);
        lemma_first_token(first);
        assert(tokens =~= before + tree_tokens(first) + items_tokens(others));
        assert(tokens[before.len() as int] == tree_tokens(first)[0]);
        lemma_parse_tree(before, first, items_tokens(others));
        let further = before + tree_tokens(first);
        assert(tokens =~= further + items_tokens(others));
        lemma_parse_top_level(further, items, k + 1, read.push(first));
        assert(read.push(first) + others =~= read + rest);
    }
}

/// The texts of trees whose atoms are words, joined by a character of white
/// space, are read back as the list of these trees.
pub proof fn theorem_read_back(items: Seq<Tree>, separator: char)
    requires
        all_printable(items),
        white_space_as_usual(),
        is_whitespace(separator),
    ensures
        tokens_of(Tree::joined(items, seq![separator])) == items_tokens(items),
        parse_tokens(tokens_of(Tree::joined(items, seq![separator]))) == Ok::<Tree, ParseError>(
            Tree::List(items),
        ),
{
    let text = Tree::joined(items, seq![separator]);
    let nothing = Seq::<char>::empty();
    assert(nothing + text =~= text);
    lemma_scan_joined(nothing, items, separator);
    lemma_flush_after_items(Seq::empty(), items);
    assert(Seq::<Seq<char>>::empty() + items_tokens(items) =~= items_tokens(items));
    assert(items.skip(0) =~= items);
    lemma_parse_top_level(Seq::empty(), items, 0, Seq::empty());
    assert(Seq::<Tree>::empty() + items =~= items);
}

/// The source text of a snapshot whose atoms are words is read back as the
/// snapshot.
pub proof fn theorem_source_read_back(items: Seq<Tree>)
    requires
        all_printable(items),
        white_space_as_usual(),
    ensures
        parse_tokens(tokens_of(source_text(Tree::List(items)))) == Ok::<Tree, ParseError>(
            Tree::List(items),
        ),
{
    theorem_read_back(items, '\n');
}

/// Whether white space is as the theorems of this file take it to be.
pub fn white_space_is_as_usual() -> (usual: bool)
    ensures
        usual == white_space_as_usual(),
{
    char_is_whitespace(' ') && char_is_whitespace('\n') && !char_is_whitespace('(')
        && !char_is_whitespace(')')
}

/// Whether `text` is one word.
pub fn is_one_word(text: &String) -> (res: bool)
    ensures
        res == is_word(text@),
{
    if text.as_str().is_empty() {
        return false;
    }
    for c in it: text.as_str().chars()
        invariant
            it.seq() == text@,
            forall|i: int| 0 <= i < it.index() ==> plain(#[trigger] text@[i]),
    {
        if c == '(' || c == ')' || char_is_whitespace(c) {
            assert(!plain(text@[it.index()]));
            return false;
        }
    }
    true
}

/// Whether every atom of `ast` is one word.
pub fn is_printable(ast: &Ast) -> (res: bool)
    ensures
        res == printable(ast@),
    decreases ast,
{
    match ast {
        Ast::Atom(text) => is_one_word(text),
        Ast::List(children) => {
            proof {
                lemma_view_list(*children);
            }
            let mut i: usize = 0;
            while i < children.len()
                invariant
                    i <= children.len(),
                    ast@ == Tree::List(trees(children@)),
                    forall|k: int| 0 <= k < i ==> printable(#[trigger] trees(children@)[k]),
                    decreases_to!(ast => children),
                decreases children.len() - i,
            {
                if !is_printable(&children[i]) {
                    proof {
                        let items = ast@->List_0;
                        assert(items[i as int] == children@[i as int]@);
                        assert(!printable(items[i as int]));
                    }
                    return false;
                }
                i += 1;
            }
            true
        },
    }
}

/// Whether the source text of `ast` is sure to be read back as `ast`: it is
/// for a list whose atoms are words, white space being as usual.
pub fn source_reads_back(ast: &Ast) -> (sure: bool)
    ensures
        sure == (white_space_as_usual() && ast@ is List && printable(ast@)),
        sure ==> parse_tokens(tokens_of(source_text(ast@))) == Ok::<Tree, ParseError>(ast@),
{
    let sure = match ast {
        Ast::List(_) => white_space_is_as_usual() && is_printable(ast),
        Ast::Atom(_) => false,
    };
    proof {
        if sure {
            theorem_source_read_back(ast@->List_0);
        }
    }
    sure
}

} // verus!
