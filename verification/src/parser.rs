//! Source text to tokens, and tokens to a tree.

use vstd::prelude::*;
use vstd::string::StringExecFns;
use crate::ast::{lemma_view_list, trees, Ast, Tree};
use crate::text::{push_char, texts};

verus! {

/// Whether `char::is_whitespace` holds of `c`.
pub uninterp spec fn is_whitespace(c: char) -> bool;

/// `char::is_whitespace`: whether `c` is white space as Unicode defines it.
#[verifier::external_body]
pub(crate) fn char_is_whitespace(c: char) -> (res: bool)
    ensures
        res == is_whitespace(c),
{
    c.is_whitespace()
}

/// `done` with `word` added as a token, unless `word` is empty.
pub open spec fn flush(done: Seq<Seq<char>>, word: Seq<char>) -> Seq<Seq<char>> {
    if word.len() == 0 {
        done
    } else {
        done.push(word)
    }
}

/// What the character `c` makes of the tokens `done` and the word `word`
/// that were read before it.
///
/// White space ends the word and is dropped. A parenthesis ends the word
/// and is a token by itself. Any other character goes on with the word.
pub open spec fn scan_step(done: Seq<Seq<char>>, word: Seq<char>, c: char) -> (
    Seq<Seq<char>>,
    Seq<char>,
) {
    if is_whitespace(c) {
        (flush(done, word), Seq::empty())
    } else if c == '(' || c == ')' {
        (flush(done, word).push(seq![c]), Seq::empty())
    } else {
        (done, word.push(c))
    }
}

/// The tokens that `text` has completed, and the word that it ends in.
pub open spec fn scan(text: Seq<char>) -> (Seq<Seq<char>>, Seq<char>)
    decreases text.len(),
{
    if text.len() == 0 {
        (Seq::empty(), Seq::empty())
    } else {
        let (done, word) = scan(text.drop_last());
        scan_step(done, word, text.last())
    }
}

/// The tokens of `text`.
pub open spec fn tokens_of(text: Seq<char>) -> Seq<Seq<char>> {
    flush(scan(text).0, scan(text).1)
}

/// Moves the word, unless it is empty, to the end of the tokens.
fn flush_word(tokens: &mut Vec<String>, word: &mut String)
    ensures
        texts(final(tokens)@) == flush(texts(old(tokens)@), old(word)@),
        final(word)@ == Seq::<char>::empty(),
{
    if word.as_str().is_empty() {
        proof {
            assert(word@ =~= Seq::<char>::empty());
        }
    } else {
        let mut taken = String::new();
        core::mem::swap(word, &mut taken);
        let ghost before = tokens@;
        tokens.push(taken);
        proof {
            assert(texts(tokens@) =~= texts(before).push(taken@));
        }
    }
}

/// Splits source text into tokens: parentheses, and the words between
/// parentheses and white space.
pub fn tokenize(code: &str) -> (tokens: Vec<String>)
    ensures
        texts(tokens@) == tokens_of(code@),
{
    let mut tokens: Vec<String> = Vec::new();
    let mut word = String::new();
    proof {
        assert(texts(tokens@) =~= Seq::<Seq<char>>::empty());
    }
    for c in it: code.chars()
        invariant
            it.seq() == code@,
            texts(tokens@) == scan(code@.take(it.index())).0,
            word@ == scan(code@.take(it.index())).1,
    {
        let ghost read = code@.take(it.index());
        let ghost next = code@.take(it.index() + 1);
        proof {
            assert(next.drop_last() =~= read);
            assert(next.last() == c);
        }
        if char_is_whitespace(c) {
            flush_word(&mut tokens, &mut word);
        } else if c == '(' || c == ')' {
            flush_word(&mut tokens, &mut word);
            let mut paren = String::new();
            push_char(&mut paren, c);
            let ghost before = tokens@;
            tokens.push(paren);
            proof {
                assert(paren@ =~= seq![c]);
                assert(texts(tokens@) =~= texts(before).push(paren@));
            }
        } else {
            push_char(&mut word, c);
        }
    }
    proof {
        assert(code@.take(code@.len() as int) =~= code@);
    }
    flush_word(&mut tokens, &mut word);
    tokens
}

/// Why a sequence of tokens is not a sequence of expressions.
#[derive(Debug, Clone, Copy, PartialEq, Eq, Structural)]
pub enum ParseError {
    /// A `)` stands where no list is open.
    UnexpectedClose,
    /// The tokens end where an expression has to begin.
    UnexpectedEnd,
    /// A `)` stands where an expression has to begin.
    StrayClose,
    /// The tokens end inside a list.
    MissingClose,
}

impl ParseError {
    /// The text of the message.
    pub open spec fn message_text(self) -> Seq<char> {
        match self {
            ParseError::UnexpectedClose => "Unexpected closing parenthesis ')' at top level."@,
            ParseError::UnexpectedEnd => "Unexpected end of input while expecting an expression."@,
            ParseError::StrayClose =>
                "Unexpected closing parenthesis ')' when expecting an expression start or atom."@,
            ParseError::MissingClose => "Missing closing parenthesis ')' for list."@,
        }
    }

    /// The message that describes the failure.
    pub fn message(self) -> (text: String)
        ensures
            text@ == self.message_text(),
    {
        match self {
            ParseError::UnexpectedClose => String::from_str(
                "Unexpected closing parenthesis ')' at top level.",
            ),
            ParseError::UnexpectedEnd => String::from_str(
                "Unexpected end of input while expecting an expression.",
            ),
            ParseError::StrayClose => String::from_str(
                "Unexpected closing parenthesis ')' when expecting an expression start or atom.",
            ),
            ParseError::MissingClose => String::from_str(
                "Missing closing parenthesis ')' for list.",
            ),
        }
    }
}

/// The token that opens a list.
pub open spec fn open_token() -> Seq<char> {
    seq!['(']
}

/// The token that closes a list.
pub open spec fn close_token() -> Seq<char> {
    seq![')']
}

/// The expression that begins at `tokens[pos]`, and the position after it.
pub open spec fn expression_at(tokens: Seq<Seq<char>>, pos: nat) -> Result<(Tree, nat), ParseError>
    decreases tokens.len() - pos, 0nat,
{
    if pos >= tokens.len() {
        Err(ParseError::UnexpectedEnd)
    } else if tokens[pos as int] == open_token() {
        list_at(tokens, pos + 1, Seq::empty())
    } else if tokens[pos as int] == close_token() {
        Err(ParseError::StrayClose)
    } else {
        Ok((Tree::Atom(tokens[pos as int]), pos + 1))
    }
}

/// The list whose first children are `items` and whose other children
/// begin at `tokens[pos]`, and the position after the `)` that closes it.
///
/// An expression always ends beyond the position that it begins at
/// (`lemma_expression_at`); the test for it is there for the recursion to
/// be seen to end.
pub open spec fn list_at(tokens: Seq<Seq<char>>, pos: nat, items: Seq<Tree>) -> Result<
    (Tree, nat),
    ParseError,
>
    decreases tokens.len() - pos, 1nat,
{
    if pos >= tokens.len() {
        Err(ParseError::MissingClose)
    } else if tokens[pos as int] == close_token() {
        Ok((Tree::List(items), pos + 1))
    } else {
        match expression_at(tokens, pos) {
            Ok((item, next)) => if pos < next <= tokens.len() {
                list_at(tokens, next, items.push(item))
            } else {
                Err(ParseError::UnexpectedEnd)
            },
            Err(e) => Err(e),
        }
    }
}

/// The top-level list whose first children are `items` and whose other
/// children are the expressions from `tokens[pos]` to the end. A `)` that
/// closes no list is a failure. (The test on `next` is as in `list_at`.)
pub open spec fn top_level_at(tokens: Seq<Seq<char>>, pos: nat, items: Seq<Tree>) -> Result<
    Tree,
    ParseError,
>
    decreases tokens.len() - pos,
{
    if pos >= tokens.len() {
        Ok(Tree::List(items))
    } else if tokens[pos as int] == close_token() {
        Err(ParseError::UnexpectedClose)
    } else {
        match expression_at(tokens, pos) {
            Ok((item, next)) => if pos < next <= tokens.len() {
                top_level_at(tokens, next, items.push(item))
            } else {
                Err(ParseError::UnexpectedEnd)
            },
            Err(e) => Err(e),
        }
    }
}

/// The tree that `tokens` stand for: the list of their expressions.
pub open spec fn parse_tokens(tokens: Seq<Seq<char>>) -> Result<Tree, ParseError> {
    top_level_at(tokens, 0, Seq::empty())
}

/// An expression ends after the token that it begins at, and within the
/// tokens. Reading one fails only for want of a `)`, unless no expression
/// begins at `pos`: there the tokens end, or a `)` stands.
pub proof fn lemma_expression_at(tokens: Seq<Seq<char>>, pos: nat)
    ensures
        match expression_at(tokens, pos) {
            Ok((_, next)) => pos < next <= tokens.len(),
            Err(e) => if pos >= tokens.len() {
                e == ParseError::UnexpectedEnd
            } else if tokens[pos as int] == close_token() {
                e == ParseError::StrayClose
            } else {
                e == ParseError::MissingClose
            },
        },
    decreases tokens.len() - pos, 0nat,
{
    if pos < tokens.len() && tokens[pos as int] == open_token() {
        assert(open_token()[0] != close_token()[0]);
        lemma_list_at(tokens, pos + 1, Seq::empty());
    }
}

/// A list ends after the position that its children begin at, and within
/// the tokens. Reading one fails only for want of a `)`.
pub proof fn lemma_list_at(tokens: Seq<Seq<char>>, pos: nat, items: Seq<Tree>)
    ensures
        match list_at(tokens, pos, items) {
            Ok((_, next)) => pos < next <= tokens.len(),
            Err(e) => e == ParseError::MissingClose,
        },
    decreases tokens.len() - pos, 1nat,
{
    if pos < tokens.len() && tokens[pos as int] != close_token() {
        lemma_expression_at(tokens, pos);
        if let Ok((item, next)) = expression_at(tokens, pos) {
            lemma_list_at(tokens, next, items.push(item));
        }
    }
}

/// Tokens fail to parse only where a parenthesis has no partner.
pub proof fn lemma_top_level_at(tokens: Seq<Seq<char>>, pos: nat, items: Seq<Tree>)
    ensures
        top_level_at(tokens, pos, items) matches Err(e) ==> e == ParseError::UnexpectedClose || e
            == ParseError::MissingClose,
    decreases tokens.len() - pos,
{
    if pos < tokens.len() && tokens[pos as int] != close_token() {
        lemma_expression_at(tokens, pos);
        if let Ok((item, next)) = expression_at(tokens, pos) {
            lemma_top_level_at(tokens, next, items.push(item));
        }
    }
}

/// Reads the expression that begins at `tokens[pos]`.
fn parse_expression(tokens: &[String], pos: usize, open: &String, close: &String) -> (res: Result<
    (Ast, usize),
    ParseError,
>)
    requires
        pos <= tokens.len(),
        open@ == open_token(),
        close@ == close_token(),
    ensures
        match expression_at(texts(tokens@), pos as nat) {
            Ok((tree, next)) => res matches Ok((ast, after)) && ast@ == tree && after == next && pos
                < after <= tokens.len(),
            Err(e) => res == Err::<(Ast, usize), ParseError>(e),
        },
    decreases tokens.len() - pos, 0nat,
{
    if pos >= tokens.len() {
        return Err(ParseError::UnexpectedEnd);
    }
    let token = &tokens[pos];
    if *token == *open {
        parse_list_items(tokens, pos + 1, open, close)
    } else if *token == *close {
        Err(ParseError::StrayClose)
    } else {
        Ok((Ast::Atom(token.clone()), pos + 1))
    }
}

/// Reads the children of a list up to the `)` that closes it; `pos` is the
/// position after the `(` that opened it.
fn parse_list_items(tokens: &[String], pos: usize, open: &String, close: &String) -> (res: Result<
    (Ast, usize),
    ParseError,
>)
    requires
        pos <= tokens.len(),
        open@ == open_token(),
        close@ == close_token(),
    ensures
        match list_at(texts(tokens@), pos as nat, Seq::empty()) {
            Ok((tree, next)) => res matches Ok((ast, after)) && ast@ == tree && after == next && pos
                < after <= tokens.len(),
            Err(e) => res == Err::<(Ast, usize), ParseError>(e),
        },
    decreases tokens.len() - pos, 1nat,
{
    let mut items: Vec<Ast> = Vec::new();
    let mut at: usize = pos;
    proof {
        assert(trees(items@) =~= Seq::<Tree>::empty());
    }
    loop
        invariant
            pos <= at <= tokens.len(),
            open@ == open_token(),
            close@ == close_token(),
            list_at(texts(tokens@), pos as nat, Seq::empty()) == list_at(
                texts(tokens@),
                at as nat,
                trees(items@),
            ),
        decreases tokens.len() - at,
    {
        if at >= tokens.len() {
            return Err(ParseError::MissingClose);
        }
        if tokens[at] == *close {
            proof {
                lemma_view_list(items);
            }
            return Ok((Ast::List(items), at + 1));
        }
        match parse_expression(tokens, at, open, close) {
            Ok((item, next)) => {
                let ghost before = items@;
                items.push(item);
                proof {
                    assert(trees(items@) =~= trees(before).push(item@));
                }
                at = next;
            },
            Err(e) => {
                return Err(e);
            },
        }
    }
}

/// Reads a sequence of tokens as a sequence of expressions, and returns
/// the list of them. Fails with a message where a parenthesis has no
/// partner.
pub fn parse(tokens: &[String]) -> (res: Result<Ast, String>)
    ensures
        match parse_tokens(texts(tokens@)) {
            Ok(tree) => res matches Ok(ast) && ast@ == tree,
            Err(e) => res matches Err(message) && message@ == e.message_text(),
        },
{
    let open = String::from_str("(");
    let close = String::from_str(")");
    proof {
        reveal_strlit("(");
        reveal_strlit(")");
        assert(open@ =~= open_token());
        assert(close@ =~= close_token());
    }
    let mut items: Vec<Ast> = Vec::new();
    let mut at: usize = 0;
    proof {
        assert(trees(items@) =~= Seq::<Tree>::empty());
    }
    while at < tokens.len()
        invariant
            at <= tokens.len(),
            open@ == open_token(),
            close@ == close_token(),
            parse_tokens(texts(tokens@)) == top_level_at(texts(tokens@), at as nat, trees(items@)),
        decreases tokens.len() - at,
    {
        if tokens[at] == close {
            return Err(ParseError::UnexpectedClose.message());
        }
        match parse_expression(tokens, at, &open, &close) {
            Ok((item, next)) => {
                let ghost before = items@;
                items.push(item);
                proof {
                    assert(trees(items@) =~= trees(before).push(item@));
                }
                at = next;
            },
            Err(e) => {
                return Err(e.message());
            },
        }
    }
    proof {
        lemma_view_list(items);
    }
    Ok(Ast::List(items))
}

} // verus!
