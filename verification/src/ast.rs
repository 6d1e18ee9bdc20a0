//! The abstract syntax tree produced by the parser, its mathematical
//! model, and the parser's error type.

use vstd::prelude::*;

verus! {

broadcast use vstd::std_specs::vec::axiom_vec_index_decreases;

/// A node of the abstract syntax tree of a pattern.
///
/// Each composite variant owns its children outright: the tree has no
/// sharing and no cycles.
#[derive(Debug, PartialEq, Eq)]
pub enum AST {
    /// A literal character.
    Char(char),
    /// One or more repetitions of the child (`+`).
    Plus(Box<AST>),
    /// Zero or more repetitions of the child (`*`).
    Star(Box<AST>),
    /// Zero or one occurrence of the child (`?`).
    Question(Box<AST>),
    /// Alternation: the left operand is tried before the right one.
    Or(Box<AST>, Box<AST>),
    /// Concatenation of the children, in order.
    Concat(Vec<AST>),
}

/// The mathematical model of an [`AST`]: the same tree, with the
/// concatenation children as a `Seq`.
pub enum SpecAst {
    Char(char),
    Plus(Box<SpecAst>),
    Star(Box<SpecAst>),
    Question(Box<SpecAst>),
    Or(Box<SpecAst>, Box<SpecAst>),
    Concat(Seq<SpecAst>),
}

/// The model of an [`AST`] node: the same tree over `Seq`.
pub open spec fn ast_view(a: AST) -> SpecAst
    decreases a,
{
    match a {
        AST::Char(c) => SpecAst::Char(c),
        AST::Plus(x) => SpecAst::Plus(Box::new(ast_view(*x))),
        AST::Star(x) => SpecAst::Star(Box::new(ast_view(*x))),
        AST::Question(x) => SpecAst::Question(Box::new(ast_view(*x))),
        AST::Or(l, r) => SpecAst::Or(Box::new(ast_view(*l)), Box::new(ast_view(*r))),
        // The range guard lets the termination check see that the
        // recursion only reaches children of `v`; indices outside the
        // range never arise in a sequence of this length.
        AST::Concat(v) => SpecAst::Concat(
            Seq::new(
                v.view().len(),
                |i: int|
                    if 0 <= i < v.view().len() {
                        ast_view(v.view()[i])
                    } else {
                        SpecAst::Char(' ')
                    },
            ),
        ),
    }
}

impl View for AST {
    type V = SpecAst;

    open spec fn view(&self) -> SpecAst {
        ast_view(*self)
    }
}

/// The models of the nodes of a sequence, in order.
pub open spec fn asts_view(v: Seq<AST>) -> Seq<SpecAst> {
    Seq::new(v.len(), |i: int| ast_view(v[i]))
}

/// A `Concat` node's model is the `Concat` of its children's models.
pub proof fn lemma_concat_view(v: Vec<AST>)
    ensures
        ast_view(AST::Concat(v)) == SpecAst::Concat(asts_view(v.view())),
{
    match ast_view(AST::Concat(v)) {
        SpecAst::Concat(inner) => {
            assert(inner =~= asts_view(v.view()));
        },
        _ => {
            assert(false);
        },
    }
}

/// Taking the models commutes with appending a node.
pub proof fn lemma_asts_view_push(v: Seq<AST>, a: AST)
    ensures
        asts_view(v.push(a)) == asts_view(v).push(ast_view(a)),
{
    assert(asts_view(v.push(a)) =~= asts_view(v).push(ast_view(a)));
}

/// Taking the models commutes with dropping the last node.
pub proof fn lemma_asts_view_drop_last(v: Seq<AST>)
    requires
        v.len() > 0,
    ensures
        asts_view(v.drop_last()) == asts_view(v).drop_last(),
{
    assert(asts_view(v.drop_last()) =~= asts_view(v).drop_last());
}

/// The error returned when a pattern is rejected.
///
/// Offsets count characters (not bytes) from the start of the pattern,
/// 0-based, and point at the character at which the problem was seen.
#[derive(Debug, PartialEq, Eq, Structural)]
pub enum ParserError {
    /// A backslash followed by a character that is not one of
    /// `\ ( ) | + * ?`; carries the offset and that character.
    InvalidEscape(usize, char),
    /// A `)` with no open group to close; carries its offset.
    InvalidRightParen(usize),
    /// A `+`, `*`, `?` or `|` with no expression before it at the
    /// current nesting level; carries its offset.
    NoPrev(usize),
    /// The input ended while one or more groups were still open.
    NoRightParen,
    /// The pattern folds to no expression at all.
    Empty,
}

} // verus!
