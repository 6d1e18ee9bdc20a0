//! The mathematical model of the parser: a state machine that consumes
//! one character at a time, kept as the single reference that the
//! executable parser is proved against.
//!
//! The state holds the scan mode (normal or escape), the stack of
//! suspended grouping contexts, and the current concatenation and
//! alternation accumulators. `run` folds `step` over a character
//! sequence; `finish` turns the final state into the parse result.

use vstd::prelude::*;

use crate::ast::ParserError;
use crate::ast::SpecAst;

verus! {

/// One suspended grouping context: the concatenation accumulator and the
/// completed alternatives of the level that a `(` interrupted.
pub struct Frame {
    pub acc: Seq<SpecAst>,
    pub alts: Seq<SpecAst>,
}

/// The whole parser state between two characters.
pub struct ParserState {
    /// True while the character after a backslash is awaited.
    pub escape: bool,
    /// The suspended contexts of the currently open groups, innermost last.
    pub stack: Seq<Frame>,
    /// What has been concatenated so far at the current level.
    pub acc: Seq<SpecAst>,
    /// The alternatives completed so far at the current level.
    pub alts: Seq<SpecAst>,
}

/// The seven syntax characters; exactly these may follow a backslash.
pub open spec fn is_syntax_char(c: char) -> bool {
    c == '\\' || c == '(' || c == ')' || c == '|' || c == '+' || c == '*' || c == '?'
}

/// The state before the first character.
pub open spec fn init_state() -> ParserState {
    ParserState { escape: false, stack: Seq::empty(), acc: Seq::empty(), alts: Seq::empty() }
}

/// The node a postfix quantifier character wraps its operand in.
pub open spec fn quantify(c: char, a: SpecAst) -> SpecAst {
    if c == '+' {
        SpecAst::Plus(Box::new(a))
    } else if c == '*' {
        SpecAst::Star(Box::new(a))
    } else {
        SpecAst::Question(Box::new(a))
    }
}

/// The OR-fold rule: no alternative folds to nothing, a single
/// alternative is the result itself, and two or more fold to a
/// right-nested chain of binary `Or` nodes in written order.
pub open spec fn fold_alts(alts: Seq<SpecAst>) -> Option<SpecAst>
    decreases alts.len(),
{
    if alts.len() == 0 {
        None
    } else if alts.len() == 1 {
        Some(alts[0])
    } else {
        match fold_alts(alts.drop_first()) {
            Some(rest) => Some(SpecAst::Or(Box::new(alts[0]), Box::new(rest))),
            None => None,
        }
    }
}

/// The alternatives of a level once it ends (at `)` or at end of input):
/// a non-empty concatenation accumulator joins them as one `Concat`.
pub open spec fn level_alts(st: ParserState) -> Seq<SpecAst> {
    if st.acc.len() > 0 {
        st.alts.push(SpecAst::Concat(st.acc))
    } else {
        st.alts
    }
}

/// One character of parsing: the transition of the state machine on
/// character `c` at offset `pos`.
pub open spec fn step(st: ParserState, c: char, pos: int) -> Result<ParserState, ParserError> {
    if st.escape {
        if is_syntax_char(c) {
            Ok(ParserState { escape: false, acc: st.acc.push(SpecAst::Char(c)), ..st })
        } else {
            Err(ParserError::InvalidEscape(pos as usize, c))
        }
    } else if c == '+' || c == '*' || c == '?' {
        if st.acc.len() == 0 {
            Err(ParserError::NoPrev(pos as usize))
        } else {
            Ok(ParserState { acc: st.acc.drop_last().push(quantify(c, st.acc.last())), ..st })
        }
    } else if c == '(' {
        Ok(
            ParserState {
                stack: st.stack.push(Frame { acc: st.acc, alts: st.alts }),
                acc: Seq::empty(),
                alts: Seq::empty(),
                ..st
            },
        )
    } else if c == ')' {
        if st.stack.len() == 0 {
            Err(ParserError::InvalidRightParen(pos as usize))
        } else {
            let top = st.stack.last();
            let acc = match fold_alts(level_alts(st)) {
                Some(a) => top.acc.push(a),
                None => top.acc,
            };
            Ok(ParserState { stack: st.stack.drop_last(), acc, alts: top.alts, ..st })
        }
    } else if c == '|' {
        if st.acc.len() == 0 {
            Err(ParserError::NoPrev(pos as usize))
        } else {
            Ok(
                ParserState {
                    alts: st.alts.push(SpecAst::Concat(st.acc)),
                    acc: Seq::empty(),
                    ..st
                },
            )
        }
    } else if c == '\\' {
        Ok(ParserState { escape: true, ..st })
    } else {
        Ok(ParserState { acc: st.acc.push(SpecAst::Char(c)), ..st })
    }
}

/// `step` folded over a character sequence, the first character standing
/// at offset `pos`; stops at the first error.
pub open spec fn run(st: ParserState, s: Seq<char>, pos: int) -> Result<ParserState, ParserError>
    decreases s.len(),
{
    if s.len() == 0 {
        Ok(st)
    } else {
        match step(st, s[0], pos) {
            Ok(next) => run(next, s.drop_first(), pos + 1),
            Err(e) => Err(e),
        }
    }
}

/// End of input: open groups are an error, then the top level folds;
/// a pattern that folds to nothing is the `Empty` error.
pub open spec fn finish(st: ParserState) -> Result<SpecAst, ParserError> {
    if st.stack.len() > 0 {
        Err(ParserError::NoRightParen)
    } else {
        match fold_alts(level_alts(st)) {
            Some(a) => Ok(a),
            None => Err(ParserError::Empty),
        }
    }
}

/// What parsing a whole pattern yields.
pub open spec fn spec_parse(s: Seq<char>) -> Result<SpecAst, ParserError> {
    match run(init_state(), s, 0) {
        Ok(st) => finish(st),
        Err(e) => Err(e),
    }
}

/// Running over a sequence extended by one character is running over the
/// sequence and then stepping on that character.
pub proof fn lemma_run_snoc(st: ParserState, s: Seq<char>, c: char, pos: int)
    ensures
        run(st, s.push(c), pos) == (match run(st, s, pos) {
            Ok(m) => step(m, c, pos + s.len()),
            Err(e) => Err::<ParserState, ParserError>(e),
        }),
    decreases s.len(),
{
    if s.len() == 0 {
        reveal_with_fuel(run, 3);
        assert(s.push(c)[0] == c);
        assert(s.push(c).drop_first() =~= Seq::<char>::empty());
    } else {
        assert(s.push(c)[0] == s[0]);
        assert(s.push(c).drop_first() =~= s.drop_first().push(c));
        match step(st, s[0], pos) {
            Ok(next) => {
                lemma_run_snoc(next, s.drop_first(), c, pos + 1);
            },
            Err(_) => {},
        }
    }
}

/// Running over a sequence splits at any index: first the prefix, then,
/// if that succeeded, the rest from the state the prefix reached.
pub proof fn lemma_run_split(st: ParserState, s: Seq<char>, pos: int, k: int)
    requires
        0 <= k <= s.len(),
    ensures
        run(st, s, pos) == (match run(st, s.take(k), pos) {
            Ok(m) => run(m, s.skip(k), pos + k),
            Err(e) => Err::<ParserState, ParserError>(e),
        }),
    decreases k,
{
    if k == 0 {
        assert(s.take(0) =~= Seq::<char>::empty());
        assert(s.skip(0) =~= s);
    } else {
        assert(s.take(k)[0] == s[0]);
        assert(s.take(k).drop_first() =~= s.drop_first().take(k - 1));
        assert(s.drop_first().skip(k - 1) =~= s.skip(k));
        match step(st, s[0], pos) {
            Ok(next) => {
                lemma_run_split(next, s.drop_first(), pos + 1, k - 1);
            },
            Err(_) => {},
        }
    }
}

/// Folding one or more alternatives always yields a node.
pub proof fn lemma_fold_alts_some(alts: Seq<SpecAst>)
    requires
        alts.len() > 0,
    ensures
        fold_alts(alts) is Some,
    decreases alts.len(),
{
    if alts.len() > 1 {
        lemma_fold_alts_some(alts.drop_first());
    }
}

/// A single alternative folds to itself.
pub proof fn lemma_fold_alts_single(alts: Seq<SpecAst>)
    requires
        alts.len() == 1,
    ensures
        fold_alts(alts) == Some(alts[0]),
{
}

/// Folding alternatives that end in two entries is folding with those
/// two entries already joined as one `Or`.
pub proof fn lemma_fold_alts_push_or(alts: Seq<SpecAst>, y: SpecAst, z: SpecAst)
    ensures
        fold_alts(alts.push(y).push(z)) == fold_alts(
            alts.push(SpecAst::Or(Box::new(y), Box::new(z))),
        ),
    decreases alts.len(),
{
    if alts.len() == 0 {
        reveal_with_fuel(fold_alts, 3);
        assert(alts.push(y).push(z)[0] == y);
        assert(alts.push(y).push(z).drop_first() =~= Seq::<SpecAst>::empty().push(z));
        assert(alts.push(SpecAst::Or(Box::new(y), Box::new(z)))[0] == SpecAst::Or(
            Box::new(y),
            Box::new(z),
        ));
    } else {
        lemma_fold_alts_push_or(alts.drop_first(), y, z);
        assert(alts.push(y).push(z)[0] == alts[0]);
        assert(alts.push(SpecAst::Or(Box::new(y), Box::new(z)))[0] == alts[0]);
        assert(alts.push(y).push(z).drop_first() =~= alts.drop_first().push(y).push(z));
        assert(alts.push(SpecAst::Or(Box::new(y), Box::new(z))).drop_first() =~= alts.drop_first()
            .push(SpecAst::Or(Box::new(y), Box::new(z))));
    }
}

} // verus!
