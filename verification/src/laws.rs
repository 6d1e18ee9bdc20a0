//! General laws of the parser, proved once for all inputs.

use vstd::prelude::*;

use crate::ast::ParserError;
use crate::ast::SpecAst;
use crate::machine::fold_alts;
use crate::machine::init_state;
use crate::machine::is_syntax_char;
use crate::machine::level_alts;
use crate::machine::run;
use crate::machine::spec_parse;
use crate::machine::step;
use crate::machine::ParserState;

verus! {

/// The literal node of one character.
pub open spec fn char_node(c: char) -> SpecAst {
    SpecAst::Char(c)
}

/// The literal nodes of the characters of `s`, in order.
pub open spec fn literal_nodes(s: Seq<char>) -> Seq<SpecAst> {
    Seq::new(s.len(), |j: int| char_node(s[j]))
}

/// Running over literal characters only appends their nodes to the
/// concatenation accumulator and changes nothing else.
proof fn lemma_run_literals(st: ParserState, s: Seq<char>, pos: int)
    requires
        !st.escape,
        forall|j: int| 0 <= j < s.len() ==> !is_syntax_char(#[trigger] s[j]),
    ensures
        run(st, s, pos) == Ok::<ParserState, ParserError>(
            (ParserState { acc: st.acc + literal_nodes(s), ..st }),
        ),
    decreases s.len(),
{
    if s.len() == 0 {
        assert(st.acc + literal_nodes(s) =~= st.acc);
    } else {
        assert(!is_syntax_char(s[0]));
        let next = ParserState { acc: st.acc.push(SpecAst::Char(s[0])), ..st };
        assert(step(st, s[0], pos) == Ok::<ParserState, ParserError>(next));
        lemma_run_literals(next, s.drop_first(), pos + 1);
        assert forall|k: int| 0 <= k < s.len() - 1 implies literal_nodes(s.drop_first())[k]
            == literal_nodes(s)[k + 1] by {
            assert(s.drop_first()[k] == s[k + 1]);
        }
        assert(literal_nodes(s)[0] == SpecAst::Char(s[0]));
        assert(next.acc + literal_nodes(s.drop_first()) =~= st.acc + literal_nodes(s));
    }
}

/// A pattern of literal (non-syntax) characters alone always parses,
/// and its tree is the concatenation of exactly those characters in
/// order: flattened back to characters, it reproduces the input.
///
/// The empty pattern is the one exception: it is the `Empty` error.
pub proof fn lemma_literals_parse(s: Seq<char>)
    requires
        s.len() > 0,
        forall|j: int| 0 <= j < s.len() ==> !is_syntax_char(#[trigger] s[j]),
    ensures
        spec_parse(s) == Ok::<SpecAst, ParserError>(SpecAst::Concat(literal_nodes(s))),
{
    lemma_run_literals(init_state(), s, 0);
    let st = ParserState { acc: init_state().acc + literal_nodes(s), ..init_state() };
    assert(st.acc =~= literal_nodes(s));
    assert(level_alts(st) =~= Seq::<SpecAst>::empty().push(SpecAst::Concat(st.acc)));
    crate::machine::lemma_fold_alts_single(level_alts(st));
    assert(level_alts(st)[0] == SpecAst::Concat(literal_nodes(s)));
}

/// Folding two or more alternatives always succeeds, and the first
/// alternative is the outermost left operand of the resulting `Or`;
/// the rest fold, in order, into its right operand.
pub proof fn lemma_fold_first_alternative(alts: Seq<SpecAst>)
    requires
        alts.len() >= 2,
    ensures
        fold_alts(alts.drop_first()) matches Some(rest) && fold_alts(alts) == Some(
            SpecAst::Or(Box::new(alts[0]), Box::new(rest)),
        ),
{
    crate::machine::lemma_fold_alts_some(alts.drop_first());
}

} // verus!
