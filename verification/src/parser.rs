//! The parser: a single left-to-right pass over the pattern, driven by
//! an explicit stack of suspended grouping contexts, proved to return
//! exactly what the state machine of [`crate::machine`] yields.

use vstd::prelude::*;
use vstd::string::StrSliceExecFns;

use crate::ast::ast_view;
use crate::ast::asts_view;
use crate::ast::lemma_asts_view_drop_last;
use crate::ast::lemma_asts_view_push;
use crate::ast::lemma_concat_view;
use crate::ast::ParserError;
use crate::ast::SpecAst;
use crate::ast::AST;
use crate::machine::fold_alts;
use crate::machine::init_state;
use crate::machine::is_syntax_char;
use crate::machine::lemma_run_snoc;
use crate::machine::lemma_run_split;
use crate::machine::level_alts;
use crate::machine::quantify;
use crate::machine::run;
use crate::machine::spec_parse;
use crate::machine::step;
use crate::machine::Frame;
use crate::machine::ParserState;

verus! {

/// Which postfix quantifier [`parse_plus_star_question`] applies.
pub enum PSQ {
    Plus,
    Star,
    Question,
}

/// The character that selects each quantifier.
pub open spec fn psq_char(t: PSQ) -> char {
    match t {
        PSQ::Plus => '+',
        PSQ::Star => '*',
        PSQ::Question => '?',
    }
}

/// The model of an optional node.
pub open spec fn option_ast_view(r: Option<AST>) -> Option<SpecAst> {
    match r {
        Some(a) => Some(ast_view(a)),
        None => None,
    }
}

/// The model of a parse result.
pub open spec fn result_ast_view(r: Result<AST, ParserError>) -> Result<SpecAst, ParserError> {
    match r {
        Ok(a) => Ok(ast_view(a)),
        Err(e) => Err(e),
    }
}

/// The models of the saved grouping contexts, in stack order.
pub open spec fn frames_view(stack: Seq<(Vec<AST>, Vec<AST>)>) -> Seq<Frame> {
    Seq::new(
        stack.len(),
        |i: int| Frame { acc: asts_view(stack[i].0.view()), alts: asts_view(stack[i].1.view()) },
    )
}

/// The machine state that a parser's locals stand for.
pub open spec fn state_of(
    escape: bool,
    stack: Seq<(Vec<AST>, Vec<AST>)>,
    seq: Seq<AST>,
    seq_or: Seq<AST>,
) -> ParserState {
    ParserState {
        escape,
        stack: frames_view(stack),
        acc: asts_view(seq),
        alts: asts_view(seq_or),
    }
}

proof fn lemma_frames_view_push(stack: Seq<(Vec<AST>, Vec<AST>)>, p: (Vec<AST>, Vec<AST>))
    ensures
        frames_view(stack.push(p)) == frames_view(stack).push(
            (Frame { acc: asts_view(p.0.view()), alts: asts_view(p.1.view()) }),
        ),
{
    assert(frames_view(stack.push(p)) =~= frames_view(stack).push(
        (Frame { acc: asts_view(p.0.view()), alts: asts_view(p.1.view()) }),
    ));
}

proof fn lemma_frames_view_drop_last(stack: Seq<(Vec<AST>, Vec<AST>)>)
    requires
        stack.len() > 0,
    ensures
        frames_view(stack.drop_last()) == frames_view(stack).drop_last(),
{
    assert(frames_view(stack.drop_last()) =~= frames_view(stack).drop_last());
}

/// An error raised while stepping on the character at `i` is the result
/// of the whole parse.
proof fn lemma_error_at(s: Seq<char>, i: int, st: ParserState, e: ParserError)
    requires
        0 <= i < s.len(),
        run(init_state(), s.take(i), 0) == Ok::<ParserState, ParserError>(st),
        step(st, s[i], i) == Err::<ParserState, ParserError>(e),
    ensures
        spec_parse(s) == Err::<SpecAst, ParserError>(e),
{
    lemma_run_split(init_state(), s, 0, i);
    assert(s.skip(i)[0] == s[i]);
    assert(run(st, s.skip(i), i) == Err::<ParserState, ParserError>(e));
}

/// Resolves the character after a backslash: one of the seven syntax
/// characters becomes its literal node, anything else is rejected.
pub fn parse_escape(pos: usize, c: char) -> (r: Result<AST, ParserError>)
    ensures
        is_syntax_char(c) ==> (r matches Ok(a) && ast_view(a) == SpecAst::Char(c)),
        !is_syntax_char(c) ==> r == Err::<AST, ParserError>(ParserError::InvalidEscape(pos, c)),
{
    match c {
        '\\' | '(' | ')' | '|' | '+' | '*' | '?' => Ok(AST::Char(c)),
        _ => Err(ParserError::InvalidEscape(pos, c)),
    }
}

/// Wraps the last node of the accumulator in the quantifier, or reports
/// that the quantifier has no expression before it.
pub fn parse_plus_star_question(seq: &mut Vec<AST>, ast_type: PSQ, pos: usize) -> (r: Result<
    (),
    ParserError,
>)
    ensures
        old(seq).view().len() == 0 ==> r == Err::<(), ParserError>(ParserError::NoPrev(pos))
            && final(seq).view() == old(seq).view(),
        old(seq).view().len() > 0 ==> r == Ok::<(), ParserError>(()) && asts_view(
            final(seq).view(),
        ) == asts_view(old(seq).view()).drop_last().push(
            quantify(psq_char(ast_type), ast_view(old(seq).view().last())),
        ),
{
    match seq.pop() {
        Some(prev) => {
            let ast = match ast_type {
                PSQ::Plus => AST::Plus(Box::new(prev)),
                PSQ::Star => AST::Star(Box::new(prev)),
                PSQ::Question => AST::Question(Box::new(prev)),
            };
            let ghost av = ast;
            seq.push(ast);
            proof {
                lemma_asts_view_drop_last(old(seq).view());
                lemma_asts_view_push(old(seq).view().drop_last(), av);
                assert(ast_view(av) == quantify(
                    psq_char(ast_type),
                    ast_view(old(seq).view().last()),
                ));
            }
            Ok(())
        },
        None => Err(ParserError::NoPrev(pos)),
    }
}

/// Folds the completed alternatives of a level by the OR-fold rule:
/// none yields nothing, one yields itself, two or more yield a
/// right-nested chain of `Or` nodes in written order.
pub fn fold_or(seq_or: Vec<AST>) -> (r: Option<AST>)
    ensures
        option_ast_view(r) == fold_alts(asts_view(seq_or.view())),
{
    let mut v = seq_or;
    if v.len() == 0 {
        assert(asts_view(v.view()).len() == 0);
        return None;
    }
    let mut ast = v.pop().unwrap();
    proof {
        lemma_asts_view_drop_last(seq_or.view());
        lemma_asts_view_push(v.view(), ast);
        assert(asts_view(v.view()).push(ast_view(ast)) =~= asts_view(seq_or.view()));
    }
    while v.len() > 0
        invariant
            fold_alts(asts_view(v.view()).push(ast_view(ast))) == fold_alts(
                asts_view(seq_or.view()),
            ),
        decreases v.len(),
    {
        let ghost oldv = v.view();
        let s = v.pop().unwrap();
        let ghost prev = ast;
        let ghost sc = s;
        let tmp = ast;
        ast = AST::Or(Box::new(s), Box::new(tmp));
        proof {
            lemma_asts_view_drop_last(oldv);
            assert(asts_view(oldv).last() == ast_view(sc));
            assert(asts_view(v.view()).push(ast_view(sc)) =~= asts_view(oldv));
            crate::machine::lemma_fold_alts_push_or(
                asts_view(v.view()),
                ast_view(sc),
                ast_view(prev),
            );
            assert(ast_view(ast) == SpecAst::Or(
                Box::new(ast_view(sc)),
                Box::new(ast_view(prev)),
            ));
        }
    }
    proof {
        assert(asts_view(v.view()) =~= Seq::<SpecAst>::empty());
        assert(asts_view(v.view()).push(ast_view(ast))[0] == ast_view(ast));
    }
    Some(ast)
}

/// Parses a pattern into its abstract syntax tree, or reports the first
/// violation with the character offset at which it was seen.
///
/// The result is exactly what the reference state machine yields:
/// running [`step`] over the characters from the initial state and
/// folding the final state with [`crate::machine::finish`].
pub fn parse(expr: &str) -> (r: Result<AST, ParserError>)
    ensures
        result_ast_view(r) == spec_parse(expr.view()),
{
    let n = expr.unicode_len();
    let mut seq: Vec<AST> = Vec::new();
    let mut seq_or: Vec<AST> = Vec::new();
    let mut stack: Vec<(Vec<AST>, Vec<AST>)> = Vec::new();
    let mut escape = false;
    let mut i: usize = 0;
    proof {
        assert(expr.view().take(0) =~= Seq::<char>::empty());
        assert(frames_view(stack.view()) =~= Seq::<Frame>::empty());
        assert(asts_view(seq.view()) =~= Seq::<SpecAst>::empty());
        assert(state_of(escape, stack.view(), seq.view(), seq_or.view()) == init_state());
    }
    while i < n
        invariant
            n == expr.view().len(),
            i <= n,
            run(init_state(), expr.view().take(i as int), 0) == Ok::<ParserState, ParserError>(
                state_of(escape, stack.view(), seq.view(), seq_or.view()),
            ),
        decreases n - i,
    {
        let c = expr.get_char(i);
        let ghost st = state_of(escape, stack.view(), seq.view(), seq_or.view());
        proof {
            assert(expr.view().take(i as int).len() == i as int);
            assert(expr.view().take(i + 1 as int) =~= expr.view().take(i as int).push(
                expr.view()[i as int],
            ));
            lemma_run_snoc(init_state(), expr.view().take(i as int), expr.view()[i as int], 0);
        }
        if escape {
            match parse_escape(i, c) {
                Ok(ast) => {
                    let ghost av = ast;
                    let ghost sv = seq.view();
                    seq.push(ast);
                    escape = false;
                    proof {
                        lemma_asts_view_push(sv, av);
                        assert(state_of(escape, stack.view(), seq.view(), seq_or.view())
                            == step(st, c, i as int).unwrap());
                    }
                },
                Err(e) => {
                    proof {
                        lemma_error_at(expr.view(), i as int, st, e);
                    }
                    return Err(e);
                },
            }
        } else {
            match c {
                '+' | '*' | '?' => {
                    let t = if c == '+' {
                        PSQ::Plus
                    } else if c == '*' {
                        PSQ::Star
                    } else {
                        PSQ::Question
                    };
                    let ghost sv = seq.view();
                    match parse_plus_star_question(&mut seq, t, i) {
                        Ok(()) => {
                            proof {
                                assert(asts_view(sv).last() == ast_view(sv.last()));
                                assert(state_of(escape, stack.view(), seq.view(), seq_or.view())
                                    == step(st, c, i as int).unwrap());
                            }
                        },
                        Err(e) => {
                            proof {
                                lemma_error_at(expr.view(), i as int, st, e);
                            }
                            return Err(e);
                        },
                    }
                },
                '(' => {
                    let ghost stv = stack.view();
                    let prev = seq;
                    let prev_or = seq_or;
                    seq = Vec::new();
                    seq_or = Vec::new();
                    stack.push((prev, prev_or));
                    proof {
                        lemma_frames_view_push(stv, (prev, prev_or));
                        assert(asts_view(seq.view()) =~= Seq::<SpecAst>::empty());
                        assert(asts_view(seq_or.view()) =~= Seq::<SpecAst>::empty());
                        assert(state_of(escape, stack.view(), seq.view(), seq_or.view())
                            == step(st, c, i as int).unwrap());
                    }
                },
                ')' => {
                    let ghost ostv = stack.view();
                    match stack.pop() {
                        None => {
                            proof {
                                lemma_error_at(
                                    expr.view(),
                                    i as int,
                                    st,
                                    ParserError::InvalidRightParen(i),
                                );
                            }
                            return Err(ParserError::InvalidRightParen(i));
                        },
                        Some(pair) => {
                            let (mut prev, prev_or) = pair;
                            let cur_acc = seq;
                            let mut cur_alts = seq_or;
                            if cur_acc.len() > 0 {
                                let ghost cav = cur_alts.view();
                                let ghost ccv = cur_acc;
                                cur_alts.push(AST::Concat(cur_acc));
                                proof {
                                    lemma_asts_view_push(cav, AST::Concat(ccv));
                                    lemma_concat_view(ccv);
                                }
                            }
                            proof {
                                assert(asts_view(cur_alts.view()) == level_alts(st));
                            }
                            let ghost pv = prev.view();
                            let folded = fold_or(cur_alts);
                            match folded {
                                Some(ast) => {
                                    let ghost av = ast;
                                    prev.push(ast);
                                    proof {
                                        lemma_asts_view_push(pv, av);
                                    }
                                },
                                None => {},
                            }
                            seq = prev;
                            seq_or = prev_or;
                            proof {
                                lemma_frames_view_drop_last(ostv);
                                assert(frames_view(ostv).last() == (Frame {
                                    acc: asts_view(pv),
                                    alts: asts_view(prev_or.view()),
                                }));
                                assert(state_of(escape, stack.view(), seq.view(), seq_or.view())
                                    == step(st, c, i as int).unwrap());
                            }
                        },
                    }
                },
                '|' => {
                    if seq.len() == 0 {
                        proof {
                            lemma_error_at(expr.view(), i as int, st, ParserError::NoPrev(i));
                        }
                        return Err(ParserError::NoPrev(i));
                    }
                    let ghost ov = seq_or.view();
                    let prev = seq;
                    seq = Vec::new();
                    let ghost pc = prev;
                    seq_or.push(AST::Concat(prev));
                    proof {
                        lemma_asts_view_push(ov, AST::Concat(pc));
                        lemma_concat_view(pc);
                        assert(asts_view(seq.view()) =~= Seq::<SpecAst>::empty());
                        assert(state_of(escape, stack.view(), seq.view(), seq_or.view())
                            == step(st, c, i as int).unwrap());
                    }
                },
                '\\' => {
                    escape = true;
                    proof {
                        assert(state_of(escape, stack.view(), seq.view(), seq_or.view())
                            == step(st, c, i as int).unwrap());
                    }
                },
                _ => {
                    let ghost sv = seq.view();
                    seq.push(AST::Char(c));
                    proof {
                        lemma_asts_view_push(sv, AST::Char(c));
                        assert(state_of(escape, stack.view(), seq.view(), seq_or.view())
                            == step(st, c, i as int).unwrap());
                    }
                },
            }
        }
        i = i + 1;
    }
    proof {
        assert(expr.view().take(n as int) =~= expr.view());
    }
    let ghost st = state_of(escape, stack.view(), seq.view(), seq_or.view());
    if stack.len() > 0 {
        proof {
            assert(frames_view(stack.view()).len() == stack.view().len());
        }
        return Err(ParserError::NoRightParen);
    }
    let cur_acc = seq;
    let mut cur_alts = seq_or;
    if cur_acc.len() > 0 {
        let ghost cav = cur_alts.view();
        let ghost ccv = cur_acc;
        cur_alts.push(AST::Concat(cur_acc));
        proof {
            lemma_asts_view_push(cav, AST::Concat(ccv));
            lemma_concat_view(ccv);
        }
    }
    proof {
        assert(asts_view(cur_alts.view()) == level_alts(st));
    }
    match fold_or(cur_alts) {
        Some(ast) => Ok(ast),
        None => Err(ParserError::Empty),
    }
}

} // verus!
