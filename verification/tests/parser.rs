use regex_parser::parse;
use regex_parser::AST;
use regex_parser::ParserError;

fn ch(c: char) -> AST {
    AST::Char(c)
}

fn plus(a: AST) -> AST {
    AST::Plus(Box::new(a))
}

fn star(a: AST) -> AST {
    AST::Star(Box::new(a))
}

fn question(a: AST) -> AST {
    AST::Question(Box::new(a))
}

fn or(l: AST, r: AST) -> AST {
    AST::Or(Box::new(l), Box::new(r))
}

fn cat(children: Vec<AST>) -> AST {
    AST::Concat(children)
}

#[test]
fn literals_reproduce_input() {
    assert_eq!(parse("abc").unwrap(), cat(vec![ch('a'), ch('b'), ch('c')]));
}

#[test]
fn literals_single_char() {
    assert_eq!(parse("a").unwrap(), cat(vec![ch('a')]));
}

#[test]
fn literals_non_ascii() {
    assert_eq!(parse("犬x猫").unwrap(), cat(vec![ch('犬'), ch('x'), ch('猫')]));
}

#[test]
fn literals_whitespace() {
    assert_eq!(parse("a b").unwrap(), cat(vec![ch('a'), ch(' '), ch('b')]));
}

#[test]
fn empty_pattern_is_empty_error() {
    assert_eq!(parse(""), Err(ParserError::Empty));
}

#[test]
fn empty_group_is_empty_error() {
    assert_eq!(parse("()"), Err(ParserError::Empty));
}

#[test]
fn alternation_first_is_outermost_left() {
    assert_eq!(
        parse("a|b|c").unwrap(),
        or(cat(vec![ch('a')]), or(cat(vec![ch('b')]), cat(vec![ch('c')]))),
    );
}

#[test]
fn repeated_star_nests() {
    assert_eq!(parse("a**").unwrap(), cat(vec![star(star(ch('a')))]));
}

#[test]
fn leading_star_is_no_prev() {
    assert_eq!(parse("*a"), Err(ParserError::NoPrev(0)));
}

#[test]
fn leading_plus_is_no_prev() {
    assert_eq!(parse("+"), Err(ParserError::NoPrev(0)));
}

#[test]
fn group_then_literal() {
    assert_eq!(
        parse("(a|b)c").unwrap(),
        cat(vec![or(cat(vec![ch('a')]), cat(vec![ch('b')])), ch('c')]),
    );
}

#[test]
fn unclosed_group_is_no_right_paren() {
    assert_eq!(parse("(a"), Err(ParserError::NoRightParen));
}

#[test]
fn doubly_unclosed_group_is_no_right_paren() {
    assert_eq!(parse("((a"), Err(ParserError::NoRightParen));
}

#[test]
fn unmatched_close_is_invalid_right_paren() {
    assert_eq!(parse("a)"), Err(ParserError::InvalidRightParen(1)));
}

#[test]
fn escaped_letter_is_invalid_escape() {
    assert_eq!(parse("\\n"), Err(ParserError::InvalidEscape(1, 'n')));
}

#[test]
fn escaped_paren_is_literal() {
    assert_eq!(parse("\\(").unwrap(), cat(vec![ch('(')]));
}

#[test]
fn every_syntax_char_escapes() {
    assert_eq!(
        parse("\\\\\\(\\)\\|\\+\\*\\?").unwrap(),
        cat(vec![ch('\\'), ch('('), ch(')'), ch('|'), ch('+'), ch('*'), ch('?')]),
    );
}

#[test]
fn trailing_bar_is_legal() {
    // A `|` needs a non-empty left side only: a trailing one leaves an
    // already-complete single alternative behind.
    assert_eq!(parse("a|").unwrap(), cat(vec![ch('a')]));
}

#[test]
fn leading_bar_is_no_prev() {
    assert_eq!(parse("|a"), Err(ParserError::NoPrev(0)));
}

#[test]
fn bar_after_open_group_is_no_prev() {
    assert_eq!(parse("(|a)"), Err(ParserError::NoPrev(1)));
}

#[test]
fn plus_and_question_wrap_previous_node() {
    assert_eq!(parse("ab+c?").unwrap(), cat(vec![ch('a'), plus(ch('b')), question(ch('c'))]));
}

#[test]
fn quantifier_applies_to_whole_group() {
    assert_eq!(parse("(ab)+").unwrap(), cat(vec![plus(cat(vec![ch('a'), ch('b')]))]));
}

#[test]
fn nested_groups_nest_concats() {
    assert_eq!(parse("((a))").unwrap(), cat(vec![cat(vec![cat(vec![ch('a')])])]));
}

#[test]
fn empty_group_contributes_nothing() {
    assert_eq!(parse("a()b").unwrap(), cat(vec![ch('a'), ch('b')]));
}

#[test]
fn trailing_backslash_is_ignored() {
    assert_eq!(parse("a\\").unwrap(), cat(vec![ch('a')]));
}

#[test]
fn alternation_inside_group_after_quantifier() {
    assert_eq!(
        parse("a*(b|c)").unwrap(),
        cat(vec![star(ch('a')), or(cat(vec![ch('b')]), cat(vec![ch('c')]))]),
    );
}

#[test]
fn message_invalid_escape() {
    let e = parse("\\n").unwrap_err();
    assert_eq!(e.message(), "ParseError: invalid escape: pos = 1, char = 'n'");
}

#[test]
fn message_invalid_right_paren() {
    let e = parse("a)").unwrap_err();
    assert_eq!(e.message(), "ParseError: invalid right parenthesis: pos = 1");
}

#[test]
fn message_no_prev() {
    let e = parse("*").unwrap_err();
    assert_eq!(e.message(), "ParseError: no previous expression: pos = 0");
}

#[test]
fn message_no_right_paren() {
    let e = parse("(").unwrap_err();
    assert_eq!(e.message(), "ParseError: no right parenthesis");
}

#[test]
fn message_empty() {
    let e = parse("").unwrap_err();
    assert_eq!(e.message(), "ParseError: empty expression");
}

#[test]
fn message_multi_digit_offset() {
    assert_eq!(
        ParserError::NoPrev(905).message(),
        "ParseError: no previous expression: pos = 905"
    );
}

#[test]
fn round_trip_group_alternation() {
    let a = parse("(a|b)c").unwrap();
    assert_eq!(a.to_pattern(), "(a|b)c");
    assert_eq!(parse(&a.to_pattern()).unwrap(), a);
}

#[test]
fn round_trip_quantifiers_and_escape() {
    let a = parse("a**b?\\(+").unwrap();
    let p = a.to_pattern();
    assert_eq!(parse(&p).unwrap(), a);
}

#[test]
fn round_trip_alternation_chain() {
    let a = parse("ab|c*d|(e?)").unwrap();
    let p = a.to_pattern();
    assert_eq!(parse(&p).unwrap(), a);
}

#[test]
fn to_pattern_escapes_syntax_chars() {
    let a = parse("\\|\\*").unwrap();
    assert_eq!(a.to_pattern(), "\\|\\*");
}

#[test]
fn to_pattern_of_nested_groups() {
    let a = parse("((a)b)").unwrap();
    assert_eq!(parse(&a.to_pattern()).unwrap(), a);
}
