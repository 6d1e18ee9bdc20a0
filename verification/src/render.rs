//! The canonical textual rendering of a parsed tree, and the proof that
//! re-parsing it reproduces the tree exactly.

use vstd::prelude::*;
use vstd::string::StringExecFns;

use crate::ast::ast_view;
use crate::ast::asts_view;
use crate::ast::lemma_concat_view;
use crate::ast::ParserError;
use crate::ast::SpecAst;
use crate::ast::AST;
use crate::machine::fold_alts;
use crate::machine::Frame;
use crate::machine::init_state;
use crate::machine::is_syntax_char;
use crate::machine::level_alts;
use crate::machine::quantify;
use crate::machine::run;
use crate::machine::spec_parse;
use crate::machine::step;
use crate::machine::ParserState;

verus! {

broadcast use
    vstd::seq::axiom_seq_index_decreases,
    vstd::seq::axiom_seq_subrange_decreases,
    vstd::std_specs::vec::axiom_vec_index_decreases;


/// The rendering of one node of a concatenation: a literal (escaped if
/// it is a syntax character), a quantified node, or a parenthesized
/// group.
pub open spec fn render_elem(e: SpecAst) -> Seq<char>
    decreases e, 3int,
{
    match e {
        SpecAst::Char(c) => if is_syntax_char(c) {
            seq!['\\', c]
        } else {
            seq![c]
        },
        SpecAst::Plus(x) => render_elem(*x).push('+'),
        SpecAst::Star(x) => render_elem(*x).push('*'),
        SpecAst::Question(x) => render_elem(*x).push('?'),
        _ => seq!['('] + render_level(e) + seq![')'],
    }
}

/// The rendering of the alternatives of one grouping level, separated
/// by `|`, in written order.
pub open spec fn render_level(g: SpecAst) -> Seq<char>
    decreases g, 2int,
{
    match g {
        SpecAst::Or(l, r) => render_alt(*l) + seq!['|'] + render_level(*r),
        _ => render_alt(g),
    }
}

/// The rendering of one alternative: its concatenated nodes.
pub open spec fn render_alt(a: SpecAst) -> Seq<char>
    decreases a, 1int,
{
    match a {
        SpecAst::Concat(elems) => render_elems(elems),
        _ => Seq::empty(),
    }
}

/// The renderings of a sequence of concatenation nodes, in order.
pub open spec fn render_elems(s: Seq<SpecAst>) -> Seq<char>
    decreases s, 3int,
{
    if s.len() == 0 {
        Seq::empty()
    } else {
        render_elem(s[0]) + render_elems(s.drop_first())
    }
}

/// The canonical textual rendering of a parsed tree.
pub open spec fn render(a: SpecAst) -> Seq<char> {
    render_level(a)
}

/// The shape of a concatenation node that the parser produces.
pub open spec fn wf_elem(e: SpecAst) -> bool
    decreases e, 3int,
{
    match e {
        SpecAst::Char(_) => true,
        SpecAst::Plus(x) => wf_elem(*x),
        SpecAst::Star(x) => wf_elem(*x),
        SpecAst::Question(x) => wf_elem(*x),
        _ => wf_level(e),
    }
}

/// The shape of a folded grouping level that the parser produces: a
/// right-nested `Or` chain of alternatives, or a single alternative.
pub open spec fn wf_level(g: SpecAst) -> bool
    decreases g, 2int,
{
    match g {
        SpecAst::Or(l, r) => wf_alt(*l) && wf_level(*r),
        SpecAst::Concat(_) => wf_alt(g),
        _ => false,
    }
}

/// The shape of one alternative: a non-empty concatenation.
pub open spec fn wf_alt(a: SpecAst) -> bool
    decreases a, 1int,
{
    match a {
        SpecAst::Concat(elems) => elems.len() > 0 && wf_elems(elems),
        _ => false,
    }
}

/// Every node of the sequence has the shape of a concatenation node.
pub open spec fn wf_elems(s: Seq<SpecAst>) -> bool
    decreases s, 3int,
{
    if s.len() == 0 {
        true
    } else {
        wf_elem(s[0]) && wf_elems(s.drop_first())
    }
}

/// The alternatives a folded level is made of, in written order.
pub open spec fn alts_of(g: SpecAst) -> Seq<SpecAst>
    decreases g,
{
    match g {
        SpecAst::Or(l, r) => seq![*l] + alts_of(*r),
        _ => seq![g],
    }
}

/// A well-formed level is exactly the fold of its alternatives.
pub proof fn lemma_fold_alts_of(g: SpecAst)
    requires
        wf_level(g),
    ensures
        alts_of(g).len() > 0,
        fold_alts(alts_of(g)) == Some(g),
    decreases g,
{
    match g {
        SpecAst::Or(l, r) => {
            lemma_fold_alts_of(*r);
            assert(alts_of(g)[0] == *l);
            assert(alts_of(g).drop_first() =~= alts_of(*r));
        },
        _ => {
            assert(alts_of(g) =~= seq![g]);
        },
    }
}

/// The nodes a well-formed alternative concatenates.
pub open spec fn alt_elems(a: SpecAst) -> Seq<SpecAst> {
    match a {
        SpecAst::Concat(elems) => elems,
        _ => Seq::empty(),
    }
}

/// Running over a concatenation of two character sequences composes.
proof fn lemma_run_append(st: ParserState, s1: Seq<char>, s2: Seq<char>, pos: int)
    ensures
        run(st, s1 + s2, pos) == (match run(st, s1, pos) {
            Ok(m) => run(m, s2, pos + s1.len()),
            Err(e) => Err::<ParserState, ParserError>(e),
        }),
{
    crate::machine::lemma_run_split(st, s1 + s2, pos, s1.len() as int);
    assert((s1 + s2).take(s1.len() as int) =~= s1);
    assert((s1 + s2).skip(s1.len() as int) =~= s2);
}

/// Parsing the rendering of a well-formed concatenation node appends
/// exactly that node to the accumulator.
proof fn lemma_run_elem(st: ParserState, e: SpecAst, pos: int)
    requires
        !st.escape,
        wf_elem(e),
    ensures
        run(st, render_elem(e), pos) == Ok::<ParserState, ParserError>(
            (ParserState { acc: st.acc.push(e), ..st }),
        ),
    decreases e, 3int,
{
    reveal_with_fuel(run, 3);
    match e {
        SpecAst::Char(c) => {
            if is_syntax_char(c) {
                let st1 = ParserState { escape: true, ..st };
                assert(render_elem(e)[0] == '\\');
                assert(render_elem(e).drop_first() =~= seq![c]);
                assert(render_elem(e).drop_first().drop_first() =~= Seq::<char>::empty());
            } else {
                assert(render_elem(e)[0] == c);
                assert(render_elem(e).drop_first() =~= Seq::<char>::empty());
            }
        },
        SpecAst::Plus(x) => {
            lemma_run_elem(st, *x, pos);
            lemma_run_append(st, render_elem(*x), seq!['+'], pos);
            assert(render_elem(e) =~= render_elem(*x) + seq!['+']);
            let st1 = ParserState { acc: st.acc.push(*x), ..st };
            assert(st1.acc.drop_last() =~= st.acc);
            assert(seq!['+'].drop_first() =~= Seq::<char>::empty());
            assert(run(st1, seq!['+'], pos + render_elem(*x).len())
                == step(st1, '+', pos + render_elem(*x).len()));
        },
        SpecAst::Star(x) => {
            lemma_run_elem(st, *x, pos);
            lemma_run_append(st, render_elem(*x), seq!['*'], pos);
            assert(render_elem(e) =~= render_elem(*x) + seq!['*']);
            let st1 = ParserState { acc: st.acc.push(*x), ..st };
            assert(st1.acc.drop_last() =~= st.acc);
            assert(seq!['*'].drop_first() =~= Seq::<char>::empty());
            assert(run(st1, seq!['*'], pos + render_elem(*x).len())
                == step(st1, '*', pos + render_elem(*x).len()));
        },
        SpecAst::Question(x) => {
            lemma_run_elem(st, *x, pos);
            lemma_run_append(st, render_elem(*x), seq!['?'], pos);
            assert(render_elem(e) =~= render_elem(*x) + seq!['?']);
            let st1 = ParserState { acc: st.acc.push(*x), ..st };
            assert(st1.acc.drop_last() =~= st.acc);
            assert(seq!['?'].drop_first() =~= Seq::<char>::empty());
            assert(run(st1, seq!['?'], pos + render_elem(*x).len())
                == step(st1, '?', pos + render_elem(*x).len()));
        },
        _ => {
            let body = render_level(e);
            assert(render_elem(e) =~= seq!['('] + (body + seq![')']));
            lemma_run_append(st, seq!['('], body + seq![')'], pos);
            assert(seq!['('].drop_first() =~= Seq::<char>::empty());
            let st1 = ParserState {
                stack: st.stack.push(Frame { acc: st.acc, alts: st.alts }),
                acc: Seq::empty(),
                alts: Seq::empty(),
                ..st
            };
            assert(run(st, seq!['('], pos) == Ok::<ParserState, ParserError>(st1));
            lemma_run_level(st1, e, pos + 1);
            lemma_run_append(st1, body, seq![')'], pos + 1);
            let st2 = match run(st1, body, pos + 1) {
                Ok(m) => m,
                Err(_) => st1,
            };
            assert(st1.alts + alts_of(e) =~= alts_of(e));
            lemma_fold_alts_of(e);
            assert(seq![')'].drop_first() =~= Seq::<char>::empty());
            assert(st2.stack.last() == (Frame { acc: st.acc, alts: st.alts }));
            assert(st2.stack.drop_last() =~= st.stack);
            assert(run(st2, seq![')'], pos + 1 + body.len())
                == step(st2, ')', pos + 1 + body.len()));
        },
    }
}

/// Parsing the rendering of a well-formed level, from a state whose
/// concatenation accumulator is empty, completes exactly the level's
/// alternatives, in order, after those already completed.
proof fn lemma_run_level(st: ParserState, g: SpecAst, pos: int)
    requires
        !st.escape,
        st.acc.len() == 0,
        wf_level(g),
    ensures
        run(st, render_level(g), pos) matches Ok(st2) && st2.stack == st.stack && st2.escape
            == false && level_alts(st2) == st.alts + alts_of(g),
    decreases g, 2int,
{
    reveal_with_fuel(run, 2);
    match g {
        SpecAst::Or(l, r) => {
            lemma_run_alt(st, *l, pos);
            let stl = ParserState { acc: st.acc + alt_elems(*l), ..st };
            assert(stl.acc =~= alt_elems(*l));
            assert(wf_alt(*l));
            match *l {
                SpecAst::Concat(elems) => {
                    assert(alt_elems(*l) == elems);
                    assert(elems.len() > 0);
                },
                _ => {
                    assert(false);
                },
            }
            assert(SpecAst::Concat(stl.acc) == *l);
            lemma_run_append(st, render_alt(*l), seq!['|'] + render_level(*r), pos);
            lemma_run_append(stl, seq!['|'], render_level(*r), pos + render_alt(*l).len());
            assert(render_level(g) =~= render_alt(*l) + (seq!['|'] + render_level(*r)));
            assert(seq!['|'].drop_first() =~= Seq::<char>::empty());
            let stm = ParserState {
                alts: st.alts.push(SpecAst::Concat(stl.acc)),
                acc: Seq::empty(),
                ..st
            };
            assert(run(stl, seq!['|'], pos + render_alt(*l).len())
                == Ok::<ParserState, ParserError>(stm));
            lemma_run_level(stm, *r, pos + render_alt(*l).len() + 1);
            let st2 = match run(stm, render_level(*r), pos + render_alt(*l).len() + 1) {
                Ok(m) => m,
                Err(_) => stm,
            };
            assert(stm.alts + alts_of(*r) =~= st.alts + alts_of(g));
        },
        _ => {
            lemma_run_alt(st, g, pos);
            let st2 = ParserState { acc: st.acc + alt_elems(g), ..st };
            assert(st2.acc =~= alt_elems(g));
            assert(wf_alt(g));
            match g {
                SpecAst::Concat(elems) => {
                    assert(alt_elems(g) == elems);
                    assert(elems.len() > 0);
                },
                _ => {
                    assert(false);
                },
            }
            assert(SpecAst::Concat(st2.acc) == g);
            assert(st2.acc.len() > 0);
            assert(alts_of(g) =~= seq![g]);
            assert(level_alts(st2) =~= st.alts + alts_of(g));
        },
    }
}

/// Parsing the rendering of a well-formed alternative appends exactly
/// its nodes to the accumulator.
proof fn lemma_run_alt(st: ParserState, a: SpecAst, pos: int)
    requires
        !st.escape,
        wf_alt(a),
    ensures
        run(st, render_alt(a), pos) == Ok::<ParserState, ParserError>(
            (ParserState { acc: st.acc + alt_elems(a), ..st }),
        ),
    decreases a, 1int,
{
    match a {
        SpecAst::Concat(elems) => {
            lemma_run_elems(st, elems, pos);
        },
        _ => {},
    }
}

/// Parsing the renderings of a sequence of well-formed concatenation
/// nodes appends exactly those nodes, in order.
proof fn lemma_run_elems(st: ParserState, s: Seq<SpecAst>, pos: int)
    requires
        !st.escape,
        wf_elems(s),
    ensures
        run(st, render_elems(s), pos) == Ok::<ParserState, ParserError>(
            (ParserState { acc: st.acc + s, ..st }),
        ),
    decreases s, 3int,
{
    if s.len() == 0 {
        assert(st.acc + s =~= st.acc);
    } else {
        lemma_run_elem(st, s[0], pos);
        lemma_run_append(st, render_elem(s[0]), render_elems(s.drop_first()), pos);
        let st1 = ParserState { acc: st.acc.push(s[0]), ..st };
        lemma_run_elems(st1, s.drop_first(), pos + render_elem(s[0]).len());
        assert(st1.acc + s.drop_first() =~= st.acc + s);
    }
}

/// Every node of the sequence has the shape of a concatenation node.
pub open spec fn all_wf_elems(s: Seq<SpecAst>) -> bool {
    forall|i: int| 0 <= i < s.len() ==> wf_elem(#[trigger] s[i])
}

/// Every node of the sequence has the shape of an alternative.
pub open spec fn all_wf_alts(s: Seq<SpecAst>) -> bool {
    forall|i: int| 0 <= i < s.len() ==> wf_alt(#[trigger] s[i])
}

/// Every accumulator the machine holds contains well-shaped nodes.
pub open spec fn wf_state(st: ParserState) -> bool {
    &&& all_wf_elems(st.acc)
    &&& all_wf_alts(st.alts)
    &&& forall|i: int|
        0 <= i < st.stack.len() ==> all_wf_elems(#[trigger] st.stack[i].acc) && all_wf_alts(
            st.stack[i].alts,
        )
}

proof fn lemma_wf_elems_all(s: Seq<SpecAst>)
    ensures
        wf_elems(s) <==> all_wf_elems(s),
    decreases s.len(),
{
    if s.len() > 0 {
        lemma_wf_elems_all(s.drop_first());
        if wf_elems(s) {
            assert forall|i: int| 0 <= i < s.len() implies wf_elem(s[i]) by {
                if i > 0 {
                    assert(s.drop_first()[i - 1] == s[i]);
                }
            }
        }
        if all_wf_elems(s) {
            assert forall|j: int| 0 <= j < s.drop_first().len() implies wf_elem(
                s.drop_first()[j],
            ) by {
                assert(s.drop_first()[j] == s[j + 1]);
            }
            assert(wf_elem(s[0]));
        }
    }
}

proof fn lemma_all_wf_elems_push(s: Seq<SpecAst>, x: SpecAst)
    requires
        all_wf_elems(s),
        wf_elem(x),
    ensures
        all_wf_elems(s.push(x)),
{
    assert forall|i: int| 0 <= i < s.push(x).len() implies wf_elem(s.push(x)[i]) by {
        if i < s.len() {
            assert(s.push(x)[i] == s[i]);
        } else {
            assert(s.push(x)[i] == x);
        }
    }
}

proof fn lemma_all_wf_alts_push(s: Seq<SpecAst>, x: SpecAst)
    requires
        all_wf_alts(s),
        wf_alt(x),
    ensures
        all_wf_alts(s.push(x)),
{
    assert forall|i: int| 0 <= i < s.push(x).len() implies wf_alt(s.push(x)[i]) by {
        if i < s.len() {
            assert(s.push(x)[i] == s[i]);
        } else {
            assert(s.push(x)[i] == x);
        }
    }
}

/// Folding well-shaped alternatives yields a well-shaped level.
proof fn lemma_fold_alts_wf(alts: Seq<SpecAst>)
    requires
        all_wf_alts(alts),
        alts.len() > 0,
    ensures
        fold_alts(alts) matches Some(g) && wf_level(g),
    decreases alts.len(),
{
    assert(wf_alt(alts[0]));
    if alts.len() == 1 {
        match alts[0] {
            SpecAst::Concat(_) => {},
            _ => {
                assert(false);
            },
        }
    } else {
        assert forall|j: int| 0 <= j < alts.drop_first().len() implies wf_alt(
            alts.drop_first()[j],
        ) by {
            assert(alts.drop_first()[j] == alts[j + 1]);
        }
        lemma_fold_alts_wf(alts.drop_first());
    }
}

/// What a level's alternatives fold to once the accumulator has joined
/// them is well-shaped.
proof fn lemma_level_alts_wf(st: ParserState)
    requires
        wf_state(st),
    ensures
        all_wf_alts(level_alts(st)),
{
    if st.acc.len() > 0 {
        lemma_wf_elems_all(st.acc);
        lemma_all_wf_alts_push(st.alts, SpecAst::Concat(st.acc));
    }
}

/// One step of the machine keeps every accumulator well-shaped.
#[verifier::rlimit(50)]
proof fn lemma_wf_state_frames(st: ParserState, st2: ParserState)
    requires
        wf_state(st),
        st2.stack == st.stack,
        all_wf_elems(st2.acc),
        all_wf_alts(st2.alts),
    ensures
        wf_state(st2),
{
    assert forall|i: int| 0 <= i < st2.stack.len() implies all_wf_elems(
        #[trigger] st2.stack[i].acc,
    ) && all_wf_alts(st2.stack[i].alts) by {
        assert(all_wf_elems(st.stack[i].acc));
        assert(all_wf_alts(st.stack[i].alts));
    }
}

proof fn lemma_step_wf(st: ParserState, c: char, pos: int)
    requires
        wf_state(st),
    ensures
        step(st, c, pos) matches Ok(st2) ==> wf_state(st2),
{
    match step(st, c, pos) {
        Err(_) => {},
        Ok(st2) => {
            if st.escape {
                lemma_all_wf_elems_push(st.acc, SpecAst::Char(c));
                lemma_wf_state_frames(st, st2);
            } else if c == '+' || c == '*' || c == '?' {
                assert(wf_elem(st.acc[st.acc.len() - 1]));
                let q = quantify(c, st.acc.last());
                assert(wf_elem(q));
                assert forall|i: int| 0 <= i < st.acc.drop_last().len() implies wf_elem(
                    st.acc.drop_last()[i],
                ) by {
                    assert(st.acc.drop_last()[i] == st.acc[i]);
                }
                lemma_all_wf_elems_push(st.acc.drop_last(), q);
                lemma_wf_state_frames(st, st2);
            } else if c == '(' {
                let f = Frame { acc: st.acc, alts: st.alts };
                assert(st2.stack == st.stack.push(f));
                assert forall|i: int| 0 <= i < st2.stack.len() implies all_wf_elems(
                    #[trigger] st2.stack[i].acc,
                ) && all_wf_alts(st2.stack[i].alts) by {
                    if i < st.stack.len() {
                        assert(st.stack.push(f)[i] == st.stack[i]);
                        assert(all_wf_elems(st.stack[i].acc));
                        assert(all_wf_alts(st.stack[i].alts));
                    } else {
                        assert(st.stack.push(f)[i] == f);
                    }
                }
            } else if c == ')' {
                let top = st.stack.last();
                assert(st.stack[st.stack.len() - 1] == top);
                lemma_level_alts_wf(st);
                match fold_alts(level_alts(st)) {
                    Some(g) => {
                        lemma_fold_alts_wf(level_alts(st));
                        assert(wf_elem(g));
                        lemma_all_wf_elems_push(top.acc, g);
                    },
                    None => {},
                }
                assert(st2.stack == st.stack.drop_last());
                assert(all_wf_elems(st2.acc));
                assert(all_wf_alts(st2.alts));
                assert forall|i: int| 0 <= i < st2.stack.len() implies all_wf_elems(
                    #[trigger] st2.stack[i].acc,
                ) && all_wf_alts(st2.stack[i].alts) by {
                    assert(st.stack.drop_last()[i] == st.stack[i]);
                    assert(all_wf_elems(st.stack[i].acc));
                    assert(all_wf_alts(st.stack[i].alts));
                }
            } else if c == '|' {
                lemma_wf_elems_all(st.acc);
                lemma_all_wf_alts_push(st.alts, SpecAst::Concat(st.acc));
                lemma_wf_state_frames(st, st2);
            } else if c == '\\' {
                lemma_wf_state_frames(st, st2);
            } else {
                lemma_all_wf_elems_push(st.acc, SpecAst::Char(c));
                lemma_wf_state_frames(st, st2);
            }
        },
    }
}

/// The machine keeps every accumulator well-shaped over any input.
proof fn lemma_run_wf(st: ParserState, s: Seq<char>, pos: int)
    requires
        wf_state(st),
    ensures
        run(st, s, pos) matches Ok(st2) ==> wf_state(st2),
    decreases s.len(),
{
    if s.len() > 0 {
        lemma_step_wf(st, s[0], pos);
        match step(st, s[0], pos) {
            Ok(n) => {
                lemma_run_wf(n, s.drop_first(), pos + 1);
            },
            Err(_) => {},
        }
    }
}

/// Every tree a successful parse returns is well-shaped.
pub proof fn lemma_parse_wf(s: Seq<char>, a: SpecAst)
    requires
        spec_parse(s) == Ok::<SpecAst, ParserError>(a),
    ensures
        wf_level(a),
{
    lemma_run_wf(init_state(), s, 0);
    match run(init_state(), s, 0) {
        Ok(st) => {
            lemma_level_alts_wf(st);
            if level_alts(st).len() > 0 {
                lemma_fold_alts_wf(level_alts(st));
            }
        },
        Err(_) => {
            assert(false);
        },
    }
}

/// The seven syntax characters, decided executably.
fn is_syntax(c: char) -> (b: bool)
    ensures
        b == is_syntax_char(c),
{
    c == '\\' || c == '(' || c == ')' || c == '|' || c == '+' || c == '*' || c == '?'
}

fn elem_pattern(a: &AST) -> (r: String)
    ensures
        r.view() == render_elem(ast_view(*a)),
    decreases *a, 3int,
{
    match a {
        AST::Char(c) => {
            let mut s = String::new();
            if is_syntax(*c) {
                s.push('\\');
                s.push(*c);
                proof {
                    assert(s.view() =~= seq!['\\', *c]);
                }
            } else {
                s.push(*c);
                proof {
                    assert(s.view() =~= seq![*c]);
                }
            }
            s
        },
        AST::Plus(x) => {
            let mut s = elem_pattern(&**x);
            s.push('+');
            s
        },
        AST::Star(x) => {
            let mut s = elem_pattern(&**x);
            s.push('*');
            s
        },
        AST::Question(x) => {
            let mut s = elem_pattern(&**x);
            s.push('?');
            s
        },
        _ => {
            let mut s = String::new();
            s.push('(');
            let body = level_pattern(a);
            s.append(body.as_str());
            s.push(')');
            proof {
                assert(s.view() =~= seq!['('] + render_level(ast_view(*a)) + seq![')']);
            }
            s
        },
    }
}

fn level_pattern(a: &AST) -> (r: String)
    ensures
        r.view() == render_level(ast_view(*a)),
    decreases *a, 2int,
{
    match a {
        AST::Or(l, x) => {
            let mut s = alt_pattern(&**l);
            s.push('|');
            let rest = level_pattern(&**x);
            s.append(rest.as_str());
            proof {
                assert(s.view() =~= render_alt(ast_view(**l)) + seq!['|'] + render_level(
                    ast_view(**x),
                ));
            }
            s
        },
        _ => alt_pattern(a),
    }
}

fn alt_pattern(a: &AST) -> (r: String)
    ensures
        r.view() == render_alt(ast_view(*a)),
    decreases *a, 1int,
{
    match a {
        AST::Concat(v) => {
            proof {
                lemma_concat_view(*v);
            }
            elems_pattern(v)
        },
        _ => {
            let s = String::new();
            s
        },
    }
}

fn elems_pattern(v: &Vec<AST>) -> (r: String)
    ensures
        r.view() == render_elems(asts_view(v.view())),
    decreases *v, 0int,
{
    let mut s = String::new();
    let n = v.len();
    let mut i: usize = 0;
    proof {
        assert(asts_view(v.view()).skip(0) =~= asts_view(v.view()));
        assert(s.view() + render_elems(asts_view(v.view()).skip(0)) =~= render_elems(
            asts_view(v.view()),
        ));
    }
    while i < n
        invariant
            n == v.view().len(),
            i <= n,
            s.view() + render_elems(asts_view(v.view()).skip(i as int)) == render_elems(
                asts_view(v.view()),
            ),
        decreases n - i,
    {
        let piece = elem_pattern(&v[i]);
        s.append(piece.as_str());
        proof {
            let all = asts_view(v.view());
            assert(all.skip(i as int)[0] == ast_view(v.view()[i as int]));
            assert(all.skip(i as int).drop_first() =~= all.skip(i + 1 as int));
            assert(s.view() + render_elems(all.skip(i + 1 as int)) =~= (s.view() + render_elems(
                all.skip(i + 1 as int),
            )));
            assert(render_elems(all.skip(i as int)) == render_elem(all.skip(i as int)[0])
                + render_elems(all.skip(i as int).drop_first()));
        }
        i = i + 1;
    }
    proof {
        assert(asts_view(v.view()).skip(n as int) =~= Seq::<SpecAst>::empty());
        assert(s.view() + Seq::<char>::empty() =~= s.view());
    }
    s
}

impl AST {
    /// The canonical textual rendering of this tree: a pattern that
    /// parses back to it (see [`lemma_round_trip`]).
    pub fn to_pattern(&self) -> (r: String)
        ensures
            r.view() == render(ast_view(*self)),
    {
        level_pattern(self)
    }
}

/// Re-parsing the canonical rendering of any tree that a successful
/// parse produced yields that very tree again.
pub proof fn lemma_round_trip(s: Seq<char>, a: SpecAst)
    requires
        spec_parse(s) == Ok::<SpecAst, ParserError>(a),
    ensures
        spec_parse(render(a)) == Ok::<SpecAst, ParserError>(a),
{
    lemma_parse_wf(s, a);
    lemma_parse_render(a);
}

/// Re-parsing the canonical rendering of a well-formed tree yields the
/// tree itself.
pub proof fn lemma_parse_render(a: SpecAst)
    requires
        wf_level(a),
    ensures
        spec_parse(render(a)) == Ok::<SpecAst, ParserError>(a),
{
    lemma_run_level(init_state(), a, 0);
    let st2 = match run(init_state(), render(a), 0) {
        Ok(m) => m,
        Err(_) => init_state(),
    };
    assert(init_state().alts + alts_of(a) =~= alts_of(a));
    lemma_fold_alts_of(a);
}

} // verus!
